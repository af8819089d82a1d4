//! Pictures and pages written where the cursor is.

use vstd::prelude::*;

use crate::framebuffer;
use crate::framebuffer::{flatten_onto, resize, Framebuffer};
use crate::geometry;
use crate::geometry::{fit, hold, scale, Budget};
use crate::render::kitty;
use crate::render::kitty::{Quiet, Sending};
use crate::source::Hints;
use crate::term::Terminal;

verus! {

/// Where the one-shot renderer's image ids come from.
#[derive(Clone, Copy, Debug, PartialEq, Eq, Structural)]
pub enum Ids {
    /// The same block every run, so only the latest run's images are stored.
    Block(u32),
    /// Fresh every run, so images earlier runs left stay where they are: the run's first id, and
    /// how many were handed out.
    Fresh(u32, u32),
}

/// One more, from the start again at the end.
pub open spec fn after(n: u32) -> u32 {
    if n == u32::MAX {
        0
    } else {
        (n + 1) as u32
    }
}

/// One more of the ids there are, from the start again at the end.
pub open spec fn after_id(n: u32) -> u32 {
    if n + 1 >= kitty::IDS {
        0
    } else {
        (n + 1) as u32
    }
}

impl Ids {
    /// The id of the next image.
    pub fn next(&mut self) -> (r: u32)
        ensures
            match *old(self) {
                Ids::Block(n) => r == kitty::PRINT_BASE + n % kitty::PRINT_SPAN && *final(self)
                    == Ids::Block(after(n)),
                Ids::Fresh(base, n) => r == kitty::nth_id(base, n as int) && *final(self)
                    == Ids::Fresh(base, after_id(n)),
            },
            r != 0,
    {
        match *self {
            Ids::Block(n) => {
                *self = Ids::Block(n.wrapping_add(1));
                kitty::print_id(n)
            },
            Ids::Fresh(base, n) => {
                *self = Ids::Fresh(
                    base,
                    if n as u64 + 1 >= kitty::IDS {
                        0
                    } else {
                        n + 1
                    },
                );
                kitty::next_id(base, n as u64)
            },
        }
    }
}

/// `a / b`, rounded up; nothing where `a` is not positive.
pub open spec fn rounded_up(a: int, b: int) -> int {
    if a <= 0 {
        0
    } else {
        (a + b - 1) / b
    }
}

/// How many cells `px` pixels cover, where one of them stands for `num / den` pixels of the
/// terminal and a cell has `cell` of those. A millionth of a cell is no cell.
//
// the tolerance keeps an edge that falls on a cell's edge, but
// for a rounding further up, from taking the cell behind it
pub open spec fn span_of(px: u32, num: u32, den: u32, cell: u32) -> u32 {
    geometry::capped(
        geometry::some(
            rounded_up(1_000_000 * (px * num) - den * cell, 1_000_000 * (den * cell)),
        ),
        u32::MAX as int,
    ) as u32
}

fn span(px: u32, num: u32, den: u32, cell: u32) -> (r: u32)
    requires
        den > 0,
        cell > 0,
    ensures
        r == span_of(px, num, den, cell),
        r >= 1,
{
    proof {
        geometry::lemma_product(px as int, num as int);
        geometry::lemma_product(den as int, cell as int);
        assert(den * cell > 0) by (nonlinear_arith)
            requires
                den > 0,
                cell > 0,
        ;
    }
    let top: u128 = 1_000_000 * (px as u128 * num as u128);
    let unit: u128 = den as u128 * cell as u128;
    if top <= unit {
        return 1;
    }
    let n: u128 = (top - unit + 1_000_000 * unit - 1) / (1_000_000 * unit);
    if n < 1 {
        1
    } else if n > 0xffff_ffff {
        0xffff_ffff
    } else {
        n as u32
    }
}

/// How a picture is written: the size it is brought to, the box of cells it is drawn in where it
/// is not drawn pixel for pixel, and the rows it takes.
#[derive(Clone, Copy, Debug, PartialEq, Eq)]
pub struct Plan {
    pub w: u32,
    pub h: u32,
    pub cells: Option<(u32, u32)>,
    pub rows: u32,
}

/// Whether `a` and `b` are at most one apart.
pub open spec fn close(a: u32, b: u32) -> bool {
    -1 <= a - b <= 1
}

fn beside(a: u32, b: u32) -> (r: bool)
    ensures
        r == close(a, b),
{
    if a > b {
        a - b <= 1
    } else {
        b - a <= 1
    }
}

/// How a picture of `dw` by `dh` pixels is written, each standing for `drawn` pixels of its own:
/// fitted to the budget, then brought within the cap and drawn in the cells it would have covered.
pub open spec fn picture_plan(dw: u32, dh: u32, drawn: (u32, u32), b: Budget, max_px: u64) -> Plan {
    let iw = geometry::scaled(dw as int, drawn.0 as int, drawn.1 as int);
    let ih = geometry::scaled(dh as int, drawn.0 as int, drawn.1 as int);
    let (w, h) = geometry::fitted(iw, ih, b);
    let to = geometry::held_of(w, h, max_px as int);
    // a vector source is already drawn under the cap, and
    // a pixel's disagreement in rounding is not worth a
    // resample
    let (pw, ph) = if close(to.w, dw) && close(to.h, dh) && dw * dh <= max_px {
        (dw, dh)
    } else {
        (to.w, to.h)
    };
    // a capped image covers the cells it would have covered
    // uncapped, and the terminal scales it up into them
    let (uw, uh) = if close(w, dw) && close(h, dh) {
        (dw, dh)
    } else {
        (w, h)
    };
    let rows = span_of(uh, 1, 1, b.cell.h);
    Plan {
        w: pw,
        h: ph,
        cells: if (pw, ph) == (uw, uh) {
            None
        } else {
            Some((span_of(uw, 1, 1, b.cell.w), rows))
        },
        rows,
    }
}

/// How a piece of a page is written: as it is, since it was laid out at the terminal's own text
/// size and fitting it would undo that. One drawn coarser is drawn in the cells it would have
/// covered.
pub open spec fn page_plan(dw: u32, dh: u32, drawn: (u32, u32), b: Budget) -> Plan {
    let rows = span_of(dh, drawn.0, drawn.1, b.cell.h);
    Plan {
        w: dw,
        h: dh,
        cells: if drawn.0 > drawn.1 {
            Some((span_of(dw, drawn.0, drawn.1, b.cell.w), rows))
        } else {
            None
        },
        rows,
    }
}

/// How a piece of a source is written, where a pixel of it stands for `drawn` pixels.
pub open spec fn plan_of(
    dw: u32,
    dh: u32,
    flowed: bool,
    drawn: (u32, u32),
    b: Budget,
    max_px: u64,
) -> Plan {
    if flowed {
        page_plan(dw, dh, drawn, b)
    } else {
        picture_plan(dw, dh, drawn, b, max_px)
    }
}

/// How a piece of a source of `dw` by `dh` pixels is written, where a pixel of it stands for
/// `drawn.0 / drawn.1` pixels.
pub fn plan(
    dw: u32,
    dh: u32,
    flowed: bool,
    drawn: (u32, u32),
    b: &Budget,
    max_px: u64,
) -> (r: Plan)
    requires
        b.cell.w > 0,
        b.cell.h > 0,
        drawn.1 > 0,
    ensures
        r == plan_of(dw, dh, flowed, drawn, *b, max_px),
        r.rows >= 1,
{
    if flowed {
        let rows: u32 = span(dh, drawn.0, drawn.1, b.cell.h);
        return Plan {
            w: dw,
            h: dh,
            cells: if drawn.0 > drawn.1 {
                Some((span(dw, drawn.0, drawn.1, b.cell.w), rows))
            } else {
                None
            },
            rows,
        };
    }
    let iw: u32 = scale(dw, drawn.0 as u64, drawn.1 as u64);
    let ih: u32 = scale(dh, drawn.0 as u64, drawn.1 as u64);
    let (w, h) = fit(iw, ih, b);
    let to = hold(w, h, max_px);
    proof {
        geometry::lemma_product(dw as int, dh as int);
    }
    let within = dw as u64 * dh as u64 <= max_px;
    let (pw, ph) = if beside(to.w, dw) && beside(to.h, dh) && within {
        (dw, dh)
    } else {
        (to.w, to.h)
    };
    let (uw, uh) = if beside(w, dw) && beside(h, dh) {
        (dw, dh)
    } else {
        (w, h)
    };
    let rows: u32 = span(uh, 1, 1, b.cell.h);
    Plan {
        w: pw,
        h: ph,
        cells: if pw == uw && ph == uh {
            None
        } else {
            Some((span(uw, 1, 1, b.cell.w), rows))
        },
        rows,
    }
}

/// A picture is written with no more pixels than the cap.
pub proof fn law_no_picture_passes_the_cap(
    dw: u32,
    dh: u32,
    drawn: (u32, u32),
    b: Budget,
    max_px: u64,
)
    requires
        1 <= max_px,
    ensures
        ({
            let p = picture_plan(dw, dh, drawn, b, max_px);
            p.w * p.h <= max_px
        }),
{
    let iw = geometry::scaled(dw as int, drawn.0 as int, drawn.1 as int);
    let ih = geometry::scaled(dh as int, drawn.0 as int, drawn.1 as int);
    let (w, h) = geometry::fitted(iw, ih, b);
    geometry::law_pixels_within(w, h, max_px as int);
}

/// A capped picture covers the cells that it would have covered uncapped.
pub proof fn law_a_capped_picture_covers_its_cells(
    dw: u32,
    dh: u32,
    drawn: (u32, u32),
    b: Budget,
    max_px: u64,
)
    ensures
        ({
            let capped = picture_plan(dw, dh, drawn, b, max_px);
            let full = picture_plan(dw, dh, drawn, b, u64::MAX);
            &&& full.cells is None
            &&& full.rows == span_of(full.h, 1, 1, b.cell.h)
            &&& capped.rows == full.rows
            &&& capped.cells matches Some(cells) ==> cells == (
                span_of(full.w, 1, 1, b.cell.w),
                full.rows,
            )
            &&& capped.cells is None ==> capped == full
        }),
{
    let iw = geometry::scaled(dw as int, drawn.0 as int, drawn.1 as int);
    let ih = geometry::scaled(dh as int, drawn.0 as int, drawn.1 as int);
    let (w, h) = geometry::fitted(iw, ih, b);
    geometry::lemma_product(w as int, h as int);
    geometry::lemma_product(dw as int, dh as int);
}

/// Newlines that take the cursor past a picture, and back to the first column.
//
// the renderer sets C=1, so the cursor is still at the
// image's top left corner and the next output would
// land on top of it
pub open spec fn past(rows: nat) -> Seq<char> {
    Seq::new(rows, |i: int| '\n') + "\r"@
}

fn push_past(out: &mut String, rows: u32)
    ensures
        final(out)@ == old(out)@ + past(rows as nat),
{
    let mut i: u32 = 0;
    while i < rows
        invariant
            i <= rows,
            out@ =~= old(out)@ + Seq::new(i as nat, |k: int| '\n'),
        decreases rows - i,
    {
        out.push('\n');
        i += 1;
    }
    out.push_str("\r");
    assert(out@ =~= old(out)@ + past(rows as nat));
}

/// What writing a picture of pixels `px` appends.
pub open spec fn written(p: Plan, id: u32, px: Seq<u8>) -> Seq<char> {
    kitty::transmission(
        Sending { w: p.w, h: p.h, id, display: true, cells: p.cells, quiet: Quiet::Fully },
        kitty::zlib_fast(px),
    ) + past(p.rows as nat)
}

/// Write a picture that has its planned size: composited over the background, sent, and the cursor
/// moved past it.
pub fn deliver(out: &mut String, fb: Framebuffer, p: &Plan, background: [u8; 3], id: u32)
    requires
        fb.wf(),
        fb.w == p.w,
        fb.h == p.h,
    ensures
        final(out)@ == old(out)@ + written(*p, id, framebuffer::flat(fb.px@, background@)),
{
    let mut ready = fb;
    flatten_onto(&mut ready, background);
    assert(ready.px@ =~= framebuffer::flat(fb.px@, background@));
    kitty::write(out, &ready, id, p.cells);
    push_past(out, p.rows);
    assert(out@ =~= old(out)@ + written(*p, id, ready.px@));
}

/// Write a piece of a source: brought to its planned size, composited over the background, sent,
/// and the cursor moved past it. A picture too large to be scaled is not written.
pub fn show(
    out: &mut String,
    fb: Framebuffer,
    flowed: bool,
    drawn: (u32, u32),
    b: &Budget,
    max_px: u64,
    background: [u8; 3],
    id: u32,
) -> (r: bool)
    requires
        fb.wf(),
        b.cell.w > 0,
        b.cell.h > 0,
        drawn.1 > 0,
    ensures
        ({
            let p = plan_of(fb.w, fb.h, flowed, drawn, *b, max_px);
            &&& r == framebuffer::scalable(fb, p.w, p.h)
            &&& !r ==> final(out)@ == old(out)@
            &&& r && p.w == fb.w && p.h == fb.h ==> final(out)@ == old(out)@ + written(
                p,
                id,
                framebuffer::flat(fb.px@, background@),
            )
            &&& r && !(p.w == fb.w && p.h == fb.h) ==> exists|sized: Framebuffer|
                {
                    &&& #[trigger] call_ensures(resize, (&fb, p.w, p.h), sized)
                    &&& final(out)@ == old(out)@ + written(
                        p,
                        id,
                        framebuffer::flat(sized.px@, background@),
                    )
                }
        }),
{
    let p = plan(fb.w, fb.h, flowed, drawn, b, max_px);
    if !framebuffer::can_resize(&fb, p.w, p.h) {
        return false;
    }
    let ready = if p.w == fb.w && p.h == fb.h {
        fb
    } else {
        resize(&fb, p.w, p.h)
    };
    deliver(out, ready, &p, background, id);
    true
}

/// `n` cells less a margin of two, and one at least.
pub open spec fn inset(n: u32) -> u32 {
    if n < 3 {
        1
    } else {
        (n - 2) as u32
    }
}

/// The space there is to write in: what the command line asks for, or the terminal less a margin.
pub fn budget(
    t: &Terminal,
    asked: Option<(u32, u32)>,
    upscale: bool,
    fill_width: bool,
    fill_height: bool,
) -> (r: Budget)
    ensures
        r == (Budget {
            cols: match asked {
                Some((cols, _)) => cols,
                None => inset(t.cols),
            },
            rows: match asked {
                Some((_, rows)) => rows,
                None => inset(t.rows),
            },
            cell: t.cell,
            upscale,
            fill_width,
            fill_height,
        }),
{
    let (cols, rows): (u32, u32) = match asked {
        Some((cols, rows)) => (cols, rows),
        None => (
            if t.cols < 3 {
                1
            } else {
                t.cols - 2
            },
            if t.rows < 3 {
                1
            } else {
                t.rows - 2
            },
        ),
    };
    Budget { cols, rows, cell: t.cell, upscale, fill_width, fill_height }
}

/// So many cells in pixels, or the most pixels a side can have.
pub open spec fn extent_of(cells: u32, cell: u32) -> u32 {
    geometry::capped(cells * cell, u32::MAX as int) as u32
}

/// So many cells in pixels.
pub fn extent(cells: u32, cell: u32) -> (r: u32)
    ensures
        r == extent_of(cells, cell),
{
    proof {
        geometry::lemma_product(cells as int, cell as int);
    }
    let px: u64 = cells as u64 * cell as u64;
    if px > 0xffff_ffff {
        0xffff_ffff
    } else {
        px as u32
    }
}

/// What a decoder is asked for. A document is written into the scrollback in pieces, so it is not cut
/// off at the fold the way a page with an edge of its own would be.
pub fn hints(b: &Budget, flowed: bool, max_px: u64) -> (r: Hints)
    ensures
        r == (Hints {
            max_w: extent_of(b.cols, b.cell.w),
            max_h: if flowed {
                u32::MAX
            } else {
                extent_of(b.rows, b.cell.h)
            },
            cell: b.cell,
            max_px,
        }),
{
    Hints {
        max_w: extent(b.cols, b.cell.w),
        max_h: if flowed {
            0xffff_ffff
        } else {
            extent(b.rows, b.cell.h)
        },
        cell: b.cell,
        max_px,
    }
}

/// The cells that pixels cover are as many as hold them all and no more, but for a millionth of a cell,
/// and one at least.
pub proof fn law_cells_hold_their_pixels(px: u32, num: u32, den: u32, cell: u32)
    requires
        0 < den,
        0 < cell,
    ensures
        ({
            let n = span_of(px, num, den, cell);
            let unit = den * cell;
            &&& n >= 1
            &&& n < u32::MAX ==> 1_000_000 * (px * num) <= 1_000_000 * (n * unit) + unit
            &&& n > 1 ==> 1_000_000 * ((n - 1) * unit) + unit < 1_000_000 * (px * num)
        }),
{
    let unit = den * cell;
    assert(unit > 0) by (nonlinear_arith)
        requires
            unit == den * cell,
            0 < den,
            0 < cell,
    ;
    let a = 1_000_000 * (px * num) - unit;
    let b = 1_000_000 * unit;
    let n = span_of(px, num, den, cell) as int;
    if a > 0 {
        let q = (a + b - 1) / b;
        geometry::lemma_quotient(a + b - 1, b);
        assert(q >= 1) by (nonlinear_arith)
            requires
                a + b - 1 < (q + 1) * b,
                a > 0,
                b > 0,
        ;
        assert(a <= q * b) by (nonlinear_arith)
            requires
                a + b - 1 < (q + 1) * b,
        ;
        assert((q - 1) * b < a) by (nonlinear_arith)
            requires
                q * b <= a + b - 1,
        ;
        assert(q * b == 1_000_000 * (q * unit) && (q - 1) * b == 1_000_000 * ((q - 1) * unit))
            by (nonlinear_arith)
            requires
                b == 1_000_000 * unit,
        ;
        if n > 1 && q > n {
            assert((n - 1) * unit <= (q - 1) * unit) by (nonlinear_arith)
                requires
                    n <= q,
                    unit > 0,
            ;
        }
    } else {
        assert(1 * unit == unit);
    }
}

/// A page is written as it was drawn, whatever room there is, in as many cells as it covers, and in a
/// box of them only where each of its pixels stands for more than one.
pub proof fn law_a_page_is_written_as_drawn(dw: u32, dh: u32, drawn: (u32, u32), b: Budget, max_px: u64)
    ensures
        ({
            let p = plan_of(dw, dh, true, drawn, b, max_px);
            &&& p.w == dw
            &&& p.h == dh
            &&& p.rows == span_of(dh, drawn.0, drawn.1, b.cell.h)
            &&& drawn.0 <= drawn.1 ==> p.cells is None
            &&& drawn.0 > drawn.1 ==> p.cells == Some(
                (span_of(dw, drawn.0, drawn.1, b.cell.w), p.rows),
            )
        }),
{
}

/// A picture that is not capped is written at the size it is fitted to, but for a pixel, in the cells
/// that it covers.
pub proof fn law_a_picture_is_written_fitted(dw: u32, dh: u32, b: Budget, max_px: u64)
    requires
        dw > 0,
        dh > 0,
        max_px > 0,
        ({
            let (w, h) = geometry::fitted(dw, dh, b);
            w * h <= max_px
        }),
    ensures
        ({
            let p = plan_of(dw, dh, false, (1, 1), b, max_px);
            let (w, h) = geometry::fitted(dw, dh, b);
            &&& -1 <= p.w - w <= 1
            &&& -1 <= p.h - h <= 1
            &&& (p.w, p.h) == (w, h) || (p.w, p.h) == (dw, dh)
            &&& (dw, dh) == (w, h) ==> (p.w, p.h) == (dw, dh) && p.cells is None
            &&& p.w * p.h <= max_px
        }),
{
    geometry::law_scaled_is_the_product(dw as int, 1, 1);
    geometry::law_scaled_is_the_product(dh as int, 1, 1);
    law_no_picture_passes_the_cap(dw, dh, (1, 1), b, max_px);
}

/// What is written of a picture is the whole of it, shown where the cursor is under its own name, and
/// then as many new lines as it takes rows and a return to the first column.
pub proof fn law_a_picture_is_followed_by_its_rows(p: Plan, id: u32, px: Seq<u8>)
    ensures
        ({
            let sent = kitty::transmission(
                Sending {
                    w: p.w,
                    h: p.h,
                    id,
                    display: true,
                    cells: p.cells,
                    quiet: Quiet::Fully,
                },
                kitty::zlib_fast(px),
            );
            let all = written(p, id, px);
            &&& all.len() == sent.len() + p.rows + 1
            &&& all.take(sent.len() as int) == sent
            &&& forall|i: int| sent.len() <= i < sent.len() + p.rows ==> all[i] == '\n'
            &&& all.last() == '\r'
        }),
{
    reveal_strlit("\r");
    let sent = kitty::transmission(
        Sending { w: p.w, h: p.h, id, display: true, cells: p.cells, quiet: Quiet::Fully },
        kitty::zlib_fast(px),
    );
    assert(written(p, id, px).take(sent.len() as int) =~= sent);
}

/// A picture over the cap is shrunk once, with its aspect kept, to as many pixels as the cap allows, or
/// written as it was drawn where that is within a pixel of it.
pub proof fn law_a_picture_over_the_cap_is_shrunk_once(dw: u32, dh: u32, b: Budget, max_px: u64)
    requires
        dw > 0,
        dh > 0,
    ensures
        ({
            let p = plan_of(dw, dh, false, (1, 1), b, max_px);
            let (w, h) = geometry::fitted(dw, dh, b);
            let to = geometry::held_of(w, h, max_px as int);
            let near = -1 <= to.w - dw <= 1 && -1 <= to.h - dh <= 1 && dw * dh <= max_px;
            &&& near ==> (p.w, p.h) == (dw, dh)
            &&& !near ==> (p.w, p.h) == (to.w, to.h)
        }),
{
    geometry::law_scaled_is_the_product(dw as int, 1, 1);
    geometry::law_scaled_is_the_product(dh as int, 1, 1);
}

/// A run writes into as many columns and rows as it was asked to, or into the terminal less two either
/// way and one at least, with the terminal's cells and the scaling that it was asked for.
pub proof fn law_the_room_is_what_was_asked_for(
    t: Terminal,
    asked: Option<(u32, u32)>,
    upscale: bool,
    fill_width: bool,
    fill_height: bool,
    r: Budget,
)
    requires
        call_ensures(budget, (&t, asked, upscale, fill_width, fill_height), r),
    ensures
        asked matches Some((cols, rows)) ==> r.cols == cols && r.rows == rows,
        asked is None ==> (t.cols >= 3 ==> r.cols == t.cols - 2) && (t.cols < 3 ==> r.cols == 1),
        asked is None ==> (t.rows >= 3 ==> r.rows == t.rows - 2) && (t.rows < 3 ==> r.rows == 1),
        r.cell == t.cell,
        r.upscale == upscale,
        r.fill_width == fill_width,
        r.fill_height == fill_height,
{
}

/// A source is asked for at the size of the room there is, a document as long as it is, under the cap.
pub proof fn law_a_source_is_asked_for_within_the_room(b: Budget, flowed: bool, max_px: u64, r: Hints)
    requires
        call_ensures(hints, (&b, flowed, max_px), r),
    ensures
        b.cols * b.cell.w <= u32::MAX ==> r.max_w == b.cols * b.cell.w,
        flowed ==> r.max_h == u32::MAX,
        !flowed && b.rows * b.cell.h <= u32::MAX ==> r.max_h == b.rows * b.cell.h,
        r.cell == b.cell,
        r.max_px == max_px,
{
}

} // verus!
