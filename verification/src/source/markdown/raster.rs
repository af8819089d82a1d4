//! Pages as pixels.

use vstd::prelude::*;

use crate::framebuffer;
use crate::framebuffer::{straighten, Framebuffer};
use crate::geometry;
use crate::geometry::{shrink, square_side, CellSize};
use crate::source::markdown::emit;
use crate::source::markdown::emit::TICKS;
use crate::source::markdown::layout;
use crate::source::markdown::layout::{Page, Rgb};
use crate::source::markdown::page::{crop, Metrics, GRAINS};
use crate::source::Error;
use crate::text;
use crate::text::push_dec;

verus! {

/// What `usvg` reads a document by: the fonts there are, above all.
#[verifier::external_type_specification]
#[verifier::external_body]
pub struct ExOptions<'a>(resvg::usvg::Options<'a>);

/// A drawing of `usvg`.
#[verifier::external_type_specification]
#[verifier::external_body]
pub struct ExTree(resvg::usvg::Tree);

/// The family that options fall back to, and the font files they were given.
pub uninterp spec fn fonts_in(o: resvg::usvg::Options<'_>) -> (Seq<char>, Seq<Seq<u8>>);

/// What is wrong with an SVG document that is read with the font files `files`, falling back to a
/// family.
pub uninterp spec fn svg_fault(svg: Seq<char>, family: Seq<char>, files: Seq<Seq<u8>>) -> Option<
    Seq<char>,
>;

/// `usvg::Options` as they are by default, but for the family that text falls back to, and
/// `fontdb::Database::set_monospace_family`: there are no fonts yet.
#[verifier::external_body]
fn fontless(family: &str) -> (r: resvg::usvg::Options<'static>)
    ensures
        fonts_in(r) == (family@, Seq::<Seq<u8>>::empty()),
{
    let mut o = resvg::usvg::Options { font_family: family.to_owned(), ..Default::default() };
    o.fontdb_mut().set_monospace_family(family);
    o
}

/// `fontdb::Database::load_font_data`: the faces in a font file are there to set text in, if they can
/// be read.
#[verifier::external_body]
fn add_font(o: &mut resvg::usvg::Options<'static>, file: Vec<u8>)
    ensures
        fonts_in(*final(o)) == (fonts_in(*old(o)).0, fonts_in(*old(o)).1.push(file@)),
{
    o.fontdb_mut().load_font_data(file);
}

/// `usvg::Tree::from_str`: the drawing that a document stands for with those fonts, or what is wrong
/// with it as the error's `Display` says it. Whether something is, and what, is a function of the
/// document and of the options. Nothing is claimed of the drawing: what a run of text comes out as is
/// up to the fonts.
#[verifier::external_body]
fn read(svg: &str, o: &resvg::usvg::Options<'_>) -> (r: Result<resvg::usvg::Tree, String>)
    ensures
        match r {
            Ok(_) => svg_fault(svg@, fonts_in(*o).0, fonts_in(*o).1) is None,
            Err(e) => svg_fault(svg@, fonts_in(*o).0, fonts_in(*o).1) == Some(e@),
        },
{
    resvg::usvg::Tree::from_str(svg, o).map_err(|e| e.to_string())
}

/// Whether there is a pixmap that wide and that tall.
pub open spec fn pixmap_exists(w: u32, h: u32) -> bool {
    0 < w && 4 * w <= i32::MAX && 0 < h
}

/// `resvg::render` onto a `tiny_skia::Pixmap::new`: the pixels of a drawing, pixel for pixel, four
/// bytes to each, where there is a pixmap of that size, of no more rows than the renderer counts. What
/// the bytes are is left unsaid: they are rounded from the processor's own approximations.
#[verifier::external_body]
fn painted(tree: &resvg::usvg::Tree, w: u32, h: u32) -> (r: Option<Vec<u8>>)
    requires
        4 * (w * h) <= isize::MAX,
        h <= i32::MAX,
    ensures
        r is Some == pixmap_exists(w, h),
        r matches Some(px) ==> px@.len() == 4 * (w * h),
{
    let mut pixmap = resvg::tiny_skia::Pixmap::new(w, h)?;
    resvg::render(tree, resvg::tiny_skia::Transform::identity(), &mut pixmap.as_mut());
    Some(pixmap.take())
}

/// What is said of a pixmap that there is none of.
pub open spec fn unallocated(w: u32, h: u32) -> Seq<char> {
    "cannot allocate "@ + text::dec(w as nat) + "x"@ + text::dec(h as nat) + " pixmap"@
}

/// A picture of what was painted, `w` pixels by `h`: the alpha made straight.
pub fn finish(px: Option<Vec<u8>>, w: u32, h: u32) -> (r: Result<Framebuffer, Error>)
    ensures
        match px {
            None => r matches Err(Error::Decode(e)) && e@ == unallocated(w, h),
            Some(raw) => if raw@.len() == 4 * (w * h) {
                r matches Ok(fb) && fb.wf() && fb.w == w && fb.h == h && fb.px@
                    == framebuffer::straight(raw@)
            } else {
                r matches Err(Error::Decode(e)) && e@ == "short pixmap"@
            },
        },
{
    let mut e = String::new();
    match px {
        None => {
            e.push_str("cannot allocate ");
            push_dec(&mut e, w as u64);
            e.push_str("x");
            push_dec(&mut e, h as u64);
            e.push_str(" pixmap");
            assert(e@ =~= unallocated(w, h));
            Err(Error::Decode(e))
        },
        Some(raw) => {
            let ghost before = raw@;
            let mut px = raw;
            straighten(&mut px);
            assert(px@.len() == before.len());
            match Framebuffer::from_raw(w, h, px) {
                Some(fb) => Ok(fb),
                None => {
                    e.push_str("short pixmap");
                    assert(e@ =~= "short pixmap"@);
                    Err(Error::Decode(e))
                },
            }
        },
    }
}

/// The fonts that pages are set in.
pub struct Faces {
    options: resvg::usvg::Options<'static>,
}

impl Faces {
    /// The family that pages ask for.
    pub closed spec fn family(self) -> Seq<char> {
        fonts_in(self.options).0
    }

    /// The font files there are.
    pub closed spec fn files(self) -> Seq<Seq<u8>> {
        fonts_in(self.options).1
    }

    /// The faces in some font files.
    //
    // not a font with contextual alternates: `->` would shape to
    // one glyph and a code block would draw narrower than the
    // column arithmetic predicts
    pub fn new(files: Vec<Vec<u8>>) -> (r: Faces)
        ensures
            r.family() == "Liberation Mono"@,
            r.files() == files@.map_values(|f: Vec<u8>| f@),
    {
        let mut options = fontless("Liberation Mono");
        let ghost all = files@.map_values(|f: Vec<u8>| f@);
        let mut i: usize = 0;
        while i < files.len()
            invariant
                i <= files@.len(),
                all == files@.map_values(|f: Vec<u8>| f@),
                fonts_in(options).0 == "Liberation Mono"@,
                fonts_in(options).1 =~= all.take(i as int),
            decreases files.len() - i,
        {
            let mut file: Vec<u8> = Vec::new();
            file.extend_from_slice(files[i].as_slice());
            assert(file@ =~= all[i as int]);
            add_font(&mut options, file);
            assert(all.take(i + 1) =~= all.take(i as int).push(all[i as int]));
            i += 1;
        }
        assert(all.take(i as int) =~= all);
        Faces { options }
    }
}

/// How wide a page is drawn, in pixels.
pub open spec fn drawn_width(m: Metrics) -> int {
    geometry::some(geometry::nearest(geometry::nearest(500_000 * m.width, TICKS as int), 1000))
}

fn across(m: &Metrics) -> (r: u32)
    requires
        m.wf(),
    ensures
        r == drawn_width(*m),
        1 <= r <= 0xffff,
{
    let thousandths: u128 = (2 * (500_000 * m.width as u128) + TICKS) / (2 * TICKS);
    proof {
        geometry::lemma_quotient(2 * (500_000 * m.width) + TICKS, 2 * TICKS);
        assert(thousandths <= 9_000_000) by (nonlinear_arith)
            requires
                thousandths * (2 * 1_258_496_000) <= 1_000_000 * 0x5_0000_0000 + 1_258_496_000,
        ;
    }
    let n: u128 = (2 * thousandths + 1000) / 2000;
    if n < 1 {
        1
    } else {
        n as u32
    }
}

/// How a page is drawn: how many pixels tall a row of it is, and how many pixels wide it is.
#[derive(Clone, Copy, Debug, PartialEq, Eq, Structural)]
pub struct Drawn {
    pub row: u32,
    pub w: u32,
}

/// How wide a page may be drawn to hold its width to the square root of so many pixels.
pub open spec fn page_side(max_px: int) -> int {
    geometry::some(geometry::root(max_px))
}

/// How wide a page is in thousandths of a pixel, rounded up.
pub open spec fn thousandths(m: Metrics) -> int {
    (500_000 * m.width + TICKS - 1) / TICKS as int
}

/// How a page is drawn under a cap: as it was laid out, or where that is too wide with its rows, and
/// with them all of it, as much coarser as it takes. A row keeps a whole number of pixels, so that
/// rows start on pixels and bands can be cut between them.
pub open spec fn drawn_of(m: Metrics, max_px: int) -> Drawn {
    let side = page_side(max_px);
    let wide = thousandths(m);
    if wide <= 1000 * side {
        Drawn { row: m.row, w: drawn_width(m) as u32 }
    } else {
        let row = geometry::shrunk(m.row as int, 1000 * side, wide);
        Drawn {
            row: row as u32,
            w: geometry::capped(
                geometry::shrunk(m.width as int, row, GRAINS * m.row),
                side,
            ) as u32,
        }
    }
}

impl Drawn {
    /// Whether a page of those sizes can be drawn like this.
    pub open spec fn of(self, m: Metrics) -> bool {
        &&& 1 <= self.row <= m.row
        &&& 1 <= self.w <= 0xffff
        &&& self.row == m.row ==> self.w == drawn_width(m)
    }

    /// How many pixels tall a slice `h` pixels tall is drawn.
    pub open spec fn tall(self, m: Metrics, h: int) -> int {
        if self.row == m.row {
            h
        } else {
            geometry::shrunk(h, self.row as int, m.row as int)
        }
    }

    /// The size a slice `h` pixels tall is drawn at, where it is not its own.
    pub open spec fn size(self, m: Metrics, h: int) -> Option<(u32, u32)> {
        if self.row == m.row {
            None
        } else {
            Some((self.w, self.tall(m, h) as u32))
        }
    }
}

/// How a page is drawn under a cap.
pub fn drawn(m: &Metrics, max_px: u64) -> (r: Drawn)
    requires
        m.wf(),
    ensures
        r == drawn_of(*m, max_px as int),
        r.of(*m),
{
    let n: u32 = square_side(max_px);
    let side: u32 = if n < 1 {
        1
    } else {
        n
    };
    let wide: u128 = (500_000 * m.width as u128 + TICKS - 1) / TICKS;
    proof {
        geometry::lemma_quotient(500_000 * m.width + TICKS - 1, TICKS as int);
        assert(wide <= 9_000_000) by (nonlinear_arith)
            requires
                wide * 1_258_496_000 <= 500_000 * 0x5_0000_0000 + 1_258_496_000,
        ;
    }
    let whole: u32 = across(m);
    if wide <= 1000 * side as u128 {
        return Drawn { row: m.row, w: whole };
    }
    let row: u32 = CellSize { w: whole, h: m.row }.coarser(wide as u32, 1000 * side).h;
    proof {
        geometry::lemma_product(m.row as int, 1000 * side);
        assert(row < m.row) by {
            geometry::lemma_quotient(m.row * (1000 * side), wide as int);
            let q = m.row * (1000 * side) / wide as int;
            assert(q < m.row) by (nonlinear_arith)
                requires
                    q * wide <= m.row * (1000 * side),
                    1000 * side < wide,
                    m.row > 0,
            ;
        }
        assert(0 <= m.width * row <= 0x5_0000_0000 * 0xffff_ffff) by (nonlinear_arith)
            requires
                0 <= m.width <= 0x5_0000_0000,
                0 <= row <= 0xffff_ffff,
        ;
        assert(GRAINS * m.row > 0);
    }
    let w: u128 = m.width as u128 * row as u128 / (GRAINS as u128 * m.row as u128);
    let w: u128 = if w < 1 {
        1
    } else {
        w
    };
    Drawn {
        row,
        w: if w > side as u128 {
            side
        } else {
            w as u32
        },
    }
}

/// A page's width is held to the square root of the cap, and what needs no capping is drawn as it was
/// laid out.
pub proof fn law_a_page_is_within_the_cap(m: Metrics, max_px: int)
    requires
        m.wf(),
        1 <= max_px,
    ensures
        ({
            let d = drawn_of(m, max_px);
            &&& d.w * d.w <= max_px
            &&& 1 <= d.row <= m.row
            &&& thousandths(m) <= 1000 * page_side(max_px) ==> d == (Drawn {
                row: m.row,
                w: drawn_width(m) as u32,
            })
        }),
{
    let d = drawn_of(m, max_px);
    let side = page_side(max_px);
    let n = geometry::root(max_px);
    geometry::lemma_has_root(max_px);
    assert(n >= 1) by (nonlinear_arith)
        requires
            1 <= max_px < (n + 1) * (n + 1),
            0 <= n,
    ;
    let wide = thousandths(m);
    let near = geometry::nearest(500_000 * m.width, TICKS as int);
    geometry::lemma_quotient(500_000 * m.width + TICKS - 1, TICKS as int);
    geometry::lemma_quotient(2 * (500_000 * m.width) + TICKS, 2 * TICKS);
    assert(0 <= wide <= 9_000_000) by (nonlinear_arith)
        requires
            wide * 1_258_496_000 <= 500_000 * 0x5_0000_0000 + 1_258_496_000,
            0 < 1_258_496_000 * (wide + 1),
    ;
    assert(near <= wide) by (nonlinear_arith)
        requires
            near * (2 * 1_258_496_000) <= 2 * (500_000 * m.width) + 1_258_496_000,
            500_000 * m.width + 1_258_496_000 - 1 < (wide + 1) * 1_258_496_000,
    ;
    if wide > 1000 * side {
        geometry::lemma_shrunk(m.row as int, 1000 * side, wide);
    }
    assert(d.w <= side);
    assert(d.w * d.w <= max_px) by (nonlinear_arith)
        requires
            0 <= d.w <= side <= n,
            n * n <= max_px,
    ;
}

/// A page is drawn at most a pixel wider than it was laid out.
pub proof fn lemma_no_wider(m: Metrics, max_px: int)
    requires
        m.wf(),
    ensures
        drawn_of(m, max_px).w * GRAINS <= m.width + GRAINS,
{
    let d = drawn_of(m, max_px);
    let width = m.width as int;
    let side = page_side(max_px);
    let wide = thousandths(m);
    let near = geometry::nearest(500_000 * width, TICKS as int);
    geometry::lemma_quotient(500_000 * width + TICKS - 1, TICKS as int);
    geometry::lemma_quotient(2 * (500_000 * width) + TICKS, 2 * TICKS);
    assert(0 <= near <= 9_000_000) by (nonlinear_arith)
        requires
            near * (2 * 1_258_496_000) <= 2 * (500_000 * width) + 1_258_496_000 < (near + 1) * (2
                * 1_258_496_000),
            0 <= width <= 0x5_0000_0000,
    ;
    if wide > 1000 * side {
        let row = geometry::shrunk(m.row as int, 1000 * side, wide);
        geometry::lemma_shrunk(m.row as int, 1000 * side, wide);
        let den = GRAINS * m.row;
        let q = width * row / den;
        assert(0 <= width * row) by (nonlinear_arith)
            requires
                0 <= width,
                0 <= row,
        ;
        geometry::lemma_quotient(width * row, den);
        assert(q * GRAINS <= width) by (nonlinear_arith)
            requires
                q * den <= width * row,
                den == GRAINS * m.row,
                1 <= row <= m.row,
                0 <= width,
                0 <= q,
        ;
    }
}

/// What is wrong with a slice of a page as a document, if anything is.
pub open spec fn fault(
    page: Page,
    m: Metrics,
    d: Drawn,
    bg: Rgb,
    from: u32,
    h: u32,
    faces: Faces,
) -> Option<Seq<char>> {
    svg_fault(slice(page, m, d, bg, from, h), faces.family(), faces.files())
}

/// A slice of a page as a document.
pub open spec fn slice(page: Page, m: Metrics, d: Drawn, bg: Rgb, from: u32, h: u32) -> Seq<char> {
    emit::document(
        m,
        layout::items_drawn(page.items@),
        bg,
        from as int,
        h as int,
        d.size(m, h as int),
    )
}

/// Whether `px` is what the rasterizer makes of a document with those faces, `w` by `h` pixels, made
/// straight.
pub closed spec fn comes_out_as(svg: Seq<char>, faces: Faces, w: u32, h: u32, px: Seq<u8>) -> bool {
    exists|s: &str, t: resvg::usvg::Tree, raw: Vec<u8>|
        {
            &&& s@ == svg
            &&& #[trigger] call_ensures(read, (s, &faces.options), Ok(t))
            &&& #[trigger] call_ensures(painted, (&t, w, h), Some(raw))
            &&& px == framebuffer::straight(raw@)
        }
}

/// Rasterize the slice of a page from pixel `from` on, `h` pixels tall.
pub fn draw(
    page: &Page,
    m: &Metrics,
    d: &Drawn,
    bg: Rgb,
    from: u32,
    h: u32,
    faces: &Faces,
) -> (r: Result<Framebuffer, Error>)
    requires
        m.wf(),
        d.of(*m),
        0 < h <= i32::MAX,
        4 * (d.w * h) <= isize::MAX,
    ensures
        match fault(*page, *m, *d, bg, from, h, *faces) {
            None => r matches Ok(fb) && {
                &&& fb.wf()
                &&& fb.w == d.w
                &&& fb.h == d.tall(*m, h as int)
                &&& comes_out_as(slice(*page, *m, *d, bg, from, h), *faces, fb.w, fb.h, fb.px@)
            },
            Some(said) => r matches Err(Error::Decode(e)) && e@ == said,
        },
{
    let (tall, size): (u32, Option<(u32, u32)>) = if d.row == m.row {
        (h, None)
    } else {
        let tall = shrink(h, d.row, m.row);
        (tall, Some((d.w, tall)))
    };
    assert(4 * (d.w * tall) <= isize::MAX) by {
        assert(d.w * tall <= d.w * h) by (nonlinear_arith)
            requires
                tall <= h,
                0 <= d.w,
        ;
    }
    let svg = emit::emit(page, m, bg, from, h, size);
    let tree = match read(svg.as_str(), &faces.options) {
        Ok(tree) => tree,
        Err(e) => {
            return Err(Error::Decode(e));
        },
    };
    let raw = painted(&tree, d.w, tall);
    let ghost px = framebuffer::straight(raw->0@);
    match finish(raw, d.w, tall) {
        Ok(fb) => {
            let out = crop(fb, tall, bg);
            assert(out.px@ =~= px);
            assert(comes_out_as(slice(*page, *m, *d, bg, from, h), *faces, out.w, out.h, out.px@));
            Ok(out)
        },
        Err(e) => Err(e),
    }
}

/// What is drawn of a page is the document of its rows from where the slice begins, at the size it is
/// drawn at: its own, or the one the cap left it, as much less tall as its rows are.
pub proof fn law_a_slice_is_drawn_from_its_own_rows(
    page: Page,
    m: Metrics,
    d: Drawn,
    bg: Rgb,
    from: u32,
    h: u32,
)
    requires
        m.wf(),
        d.of(m),
        h > 0,
    ensures
        d.row == m.row ==> d.tall(m, h as int) == h && slice(page, m, d, bg, from, h) == emit::document(
            m,
            layout::items_drawn(page.items@),
            bg,
            from as int,
            h as int,
            None,
        ),
        d.row != m.row ==> ({
            let tall = d.tall(m, h as int);
            &&& slice(page, m, d, bg, from, h) == emit::document(
                m,
                layout::items_drawn(page.items@),
                bg,
                from as int,
                h as int,
                Some((d.w, tall as u32)),
            )
            &&& 1 <= tall <= h
            &&& tall > 1 ==> tall * m.row <= h * d.row < (tall + 1) * m.row
        }),
{
    geometry::lemma_shrunk(h as int, d.row as int, m.row as int);
    assert(0 <= h * d.row) by (nonlinear_arith)
        requires
            0 < h,
            0 < d.row,
    ;
    geometry::lemma_quotient(h * d.row, m.row as int);
}

/// A page that is too wide is drawn no coarser than it takes: a row a pixel taller would be too tall for
/// its width, and its width is what its rows leave of it, to the pixel, or all that it may be.
pub proof fn law_a_page_is_no_coarser_than_it_takes(m: Metrics, max_px: int)
    requires
        m.wf(),
        1 <= max_px,
        thousandths(m) > 1000 * page_side(max_px),
    ensures
        ({
            let d = drawn_of(m, max_px);
            let (side, wide) = (page_side(max_px), thousandths(m));
            &&& m.row * (1000 * side) < (d.row + 1) * wide
            &&& d.row > 1 ==> d.row * wide <= m.row * (1000 * side)
            &&& d.w == side || d.w == 1 || (d.w * (2_516_992 * m.row) <= m.width * d.row < (d.w + 1) * (
            2_516_992 * m.row))
            &&& is_page_side(side, max_px)
        }),
{
    let d = drawn_of(m, max_px);
    let (side, wide) = (page_side(max_px), thousandths(m));
    let n = geometry::root(max_px);
    geometry::lemma_has_root(max_px);
    assert(n >= 1) by (nonlinear_arith)
        requires
            1 <= max_px < (n + 1) * (n + 1),
            0 <= n,
    ;
    geometry::lemma_quotient(500_000 * m.width + TICKS - 1, TICKS as int);
    let x = m.row * (1000 * side);
    geometry::lemma_shrunk(m.row as int, 1000 * side, wide);
    geometry::lemma_quotient(x, wide);
    let q = x / wide;
    let row = geometry::some(q);
    assert((row + 1) * wide >= (q + 1) * wide) by (nonlinear_arith)
        requires
            row >= q,
            wide > 0,
    ;
    assert(d.row == row);
    let den = GRAINS * m.row;
    assert(0 <= m.width * row) by (nonlinear_arith)
        requires
            0 <= m.width,
            0 <= row,
    ;
    geometry::lemma_quotient(m.width * row, den as int);
    lemma_no_wider(m, max_px);
    assert(side <= wide);
    assert(wide <= 9_000_000) by (nonlinear_arith)
        requires
            wide * 1_258_496_000 <= 500_000 * 0x5_0000_0000 + 1_258_496_000,
    ;
}

/// Whether `side` squared is no more than so many pixels, and a pixel more would be.
pub open spec fn is_page_side(side: int, max_px: int) -> bool {
    1 <= side && side * side <= max_px < (side + 1) * (side + 1)
}

} // verus!
