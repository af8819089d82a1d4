//! Sources of pictures and pages.

pub mod index;
pub mod markdown;

use vstd::prelude::*;

use crate::framebuffer::Framebuffer;
use crate::geometry;
use crate::geometry::CellSize;
use crate::source::index::Index;
use crate::source::markdown::highlight::Highlighter;
use crate::source::markdown::layout;
use crate::source::markdown::layout::{Page, Rgb, Theme};
use crate::source::markdown::page;
use crate::source::markdown::page::{drawn_height, lay_out, Metrics};
use crate::source::markdown::raster;
use crate::source::markdown::raster::{Drawn, Faces};
use crate::text;
use crate::text::{bytes_at, find_bytes, lowered_chars};

verus! {

/// What the caller would like the decoder to rasterize at, for the formats that have no inherent
/// pixel size.
#[derive(Clone, Copy, Debug, PartialEq, Eq, Structural)]
pub struct Hints {
    pub max_w: u32,
    pub max_h: u32,
    /// The terminal's character cell.
    //
    // a flowed source sets its type from this: a monospace
    // glyph advances by exactly one cell width, so matching the
    // cell is what makes the body text come out the size of the
    // text around it
    pub cell: CellSize,
    /// The most pixels an image sent to the terminal may have.
    pub max_px: u64,
}

/// Whether a source is a picture or a page of text.
#[derive(Clone, Copy, Debug, PartialEq, Eq, Structural)]
pub enum Kind {
    /// A picture, fitted to the screen so that all of it is visible at once.
    Image,
    /// A page of text, drawn at full width and 1:1 and panned to read on.
    Document,
}

/// Why a source cannot be shown.
#[derive(Debug)]
pub enum Error {
    Unsupported(&'static str),
    Decode(String),
}

impl Error {
    /// What is said of the error.
    pub open spec fn said(self) -> Seq<char> {
        match self {
            Error::Unsupported(what) => "unsupported format: "@ + what@,
            Error::Decode(msg) => msg@,
        }
    }

    /// What is said of the error.
    pub fn message(&self) -> (r: String)
        ensures
            r@ == self.said(),
    {
        match self {
            Error::Unsupported(what) => {
                let mut out = String::new();
                out.push_str("unsupported format: ");
                out.push_str(what);
                assert(out@ =~= self.said());
                out
            },
            Error::Decode(msg) => msg.clone(),
        }
    }
}

/// What a file holds.
#[derive(Clone, Copy, Debug, PartialEq, Eq, Structural)]
pub enum Format {
    Raster,
    Svg,
    Pdf,
    Markdown,
    Unknown,
}

/// What a PNG begins with.
pub open spec fn png_magic() -> Seq<u8> {
    seq![0x89, 0x50, 0x4e, 0x47, 0x0d, 0x0a, 0x1a, 0x0a]
}

/// What a JPEG begins with.
pub open spec fn jpeg_magic() -> Seq<u8> {
    seq![0xff, 0xd8, 0xff]
}

/// What a PDF begins with: `%PDF-`.
pub open spec fn pdf_magic() -> Seq<u8> {
    seq![0x25, 0x50, 0x44, 0x46, 0x2d]
}

/// The root element of an SVG, as it opens: `<svg`.
pub open spec fn svg_root() -> Seq<u8> {
    seq![0x3c, 0x73, 0x76, 0x67]
}

/// Whether `ext` is an extension that means markdown, ASCII case aside.
pub open spec fn means_markdown(ext: Seq<char>) -> bool {
    let e = text::lowered(ext);
    e == "md"@ || e == "markdown"@ || e == "mdown"@ || e == "mkd"@
}

/// The first kilobyte.
pub open spec fn head(bytes: Seq<u8>) -> Seq<u8> {
    if bytes.len() > 1024 {
        bytes.take(1024)
    } else {
        bytes
    }
}

/// What a file holds, by its bytes and its extension.
//
// the extension is the only signal for markdown, and it
// is read before the content probe: a document *about* svg
// mentions <svg in its first paragraph, which the probe would
// take for an svg file
//
// SVG has no magic number, and the root element can sit
// behind an XML declaration, a doctype, or comments
pub open spec fn format_of(bytes: Seq<u8>, ext: Seq<char>) -> Format {
    if text::occurs_at(bytes, png_magic(), 0) || text::occurs_at(bytes, jpeg_magic(), 0) {
        Format::Raster
    } else if text::occurs_at(bytes, pdf_magic(), 0) {
        Format::Pdf
    } else if means_markdown(ext) {
        Format::Markdown
    } else if text::first_from(head(bytes), svg_root(), 0) is Some {
        Format::Svg
    } else if text::lowered(ext) == "svg"@ {
        Format::Svg
    } else if text::lowered(ext) == "pdf"@ {
        Format::Pdf
    } else {
        Format::Unknown
    }
}

/// Whether `bytes` begin with `magic`.
fn begins(bytes: &[u8], magic: &[u8]) -> (r: bool)
    ensures
        r == text::occurs_at(bytes@, magic@, 0),
{
    bytes_at(bytes, magic, 0)
}

/// What a file holds, by its bytes and its extension.
pub fn sniff(bytes: &[u8], ext: &str) -> (r: Format)
    ensures
        r == format_of(bytes@, ext@),
{
    let png: [u8; 8] = [0x89, 0x50, 0x4e, 0x47, 0x0d, 0x0a, 0x1a, 0x0a];
    let jpeg: [u8; 3] = [0xff, 0xd8, 0xff];
    let pdf: [u8; 5] = [0x25, 0x50, 0x44, 0x46, 0x2d];
    let svg: [u8; 4] = [0x3c, 0x73, 0x76, 0x67];
    assert(png@ =~= png_magic());
    assert(jpeg@ =~= jpeg_magic());
    assert(pdf@ =~= pdf_magic());
    assert(svg@ =~= svg_root());
    if begins(bytes, png.as_slice()) || begins(bytes, jpeg.as_slice()) {
        return Format::Raster;
    }
    if begins(bytes, pdf.as_slice()) {
        return Format::Pdf;
    }
    let e = lowered_chars(ext);
    if text::equals(&e, "md") || text::equals(&e, "markdown") || text::equals(&e, "mdown")
        || text::equals(&e, "mkd") {
        return Format::Markdown;
    }
    let head: &[u8] = if bytes.len() > 1024 {
        vstd::slice::slice_subrange(bytes, 0, 1024)
    } else {
        bytes
    };
    assert(bytes@.len() > 1024 ==> bytes@.subrange(0, 1024) =~= bytes@.take(1024));
    if find_bytes(head, svg.as_slice(), 0).is_some() {
        return Format::Svg;
    }
    if text::equals(&e, "svg") {
        Format::Svg
    } else if text::equals(&e, "pdf") {
        Format::Pdf
    } else {
        Format::Unknown
    }
}

/// What sort of thing this is, without decoding it.
//
// the size to ask a decoder for depends on the kind, so
// the kind has to be settled before the pixels arrive
pub fn kind(bytes: &[u8], ext: &str) -> (r: Kind)
    ensures
        r == (if format_of(bytes@, ext@) == Format::Markdown {
            Kind::Document
        } else {
            Kind::Image
        }),
{
    match sniff(bytes, ext) {
        Format::Markdown => Kind::Document,
        _ => Kind::Image,
    }
}

/// A picture: how wide and how tall it is, and its pixels.
#[verifier::ext_equal]
pub struct Picture {
    pub w: u32,
    pub h: u32,
    pub px: Seq<u8>,
}

/// What `image` makes of a PNG: the picture, or what is wrong with it.
pub uninterp spec fn png_picture(bytes: Seq<u8>) -> Result<Picture, Seq<char>>;

/// `image::load_from_memory` and `into_rgba8`: the picture, four bytes to a pixel, or what is wrong
/// with the bytes as the error's `Display` says it. What comes of a PNG is a function of its bytes.
/// A JPEG's pixels are left unsaid: its decoder has code of its own for each sort of processor.
#[verifier::external_body]
fn decode(bytes: &[u8]) -> (r: Result<Framebuffer, String>)
    ensures
        r matches Ok(fb) ==> fb.wf(),
        text::occurs_at(bytes@, png_magic(), 0) ==> match r {
            Ok(fb) => png_picture(bytes@) == Ok::<Picture, Seq<char>>(
                Picture { w: fb.w, h: fb.h, px: fb.px@ },
            ),
            Err(e) => png_picture(bytes@) == Err::<Picture, Seq<char>>(e@),
        },
{
    let img = image::load_from_memory(bytes).map_err(|e| e.to_string())?.into_rgba8();
    Ok(Framebuffer { w: img.width(), h: img.height(), px: img.into_raw() })
}

/// A decoded source.
#[derive(Debug)]
pub struct Loaded {
    pub fb: Framebuffer,
    /// Where the words landed, for a document the viewer can search.
    //
    // a rasterized page is pixels, so nothing in it can be
    // found by looking at it again. this is the same text
    // layout already positioned, kept instead of discarded
    pub index: Option<Index>,
    /// How many of the terminal's pixels one of its own stands for, as a fraction.
    pub per: (u32, u32),
}

/// A document laid out, and how much of it is drawn.
#[derive(Debug)]
pub struct Flowed {
    pub page: Page,
    pub metrics: Metrics,
    /// How much of the page is drawn, in pixels from its top.
    pub total: u32,
    /// How it is drawn.
    pub drawn: Drawn,
}

impl Flowed {
    /// Whether there are rows to draw, and memory for them.
    pub open spec fn fits(self) -> bool {
        &&& self.metrics.wf()
        &&& self.drawn.of(self.metrics)
        &&& 0 < self.total <= i32::MAX
        &&& 4 * (self.drawn.w * self.total) <= isize::MAX
    }

    /// Whether this is the document `bytes` laid out for `hints`, drawn as far as they ask.
    pub open spec fn shows(self, bytes: Seq<u8>, hints: Hints, theme: Theme) -> bool {
        let m = self.metrics;
        let c = layout::drawn(page::setting_of(m, theme), page::tree_of(bytes));
        &&& m == page::metrics_of(hints.cell, hints.max_w)
        &&& self.drawn == raster::drawn_of(m, hints.max_px as int)
        &&& self.fits()
        &&& layout::items_drawn(self.page.items@) == c.items
        &&& index::heading_models(self.page.outline@) == c.outline
        &&& index::line_models(self.page.lines@) == layout::page_lines(c.items)
        &&& self.page.rows == layout::at_most(c.y + page::frame_of(m).margin)
        &&& self.total == page::height_of(
            self.page.rows * m.row,
            m.width as int,
            hints.max_h as int,
        )
    }

    /// Whether `r` is the page drawn in one piece with where its words landed, or what is wrong with it.
    pub open spec fn loads_as(self, bg: Rgb, faces: Faces, r: Result<Loaded, Error>) -> bool {
        let m = self.metrics;
        match raster::fault(self.page, m, self.drawn, bg, 0, self.total, faces) {
            None => r matches Ok(l) && {
                &&& l.fb.wf()
                &&& l.fb.w == self.drawn.w
                &&& l.fb.h == self.drawn.tall(m, self.total as int)
                &&& raster::comes_out_as(
                    raster::slice(self.page, m, self.drawn, bg, 0, self.total),
                    faces,
                    l.fb.w,
                    l.fb.h,
                    l.fb.px@,
                )
                &&& l.index matches Some(ix) && ix.lines@ == self.page.lines@ && ix.outline@
                    == self.page.outline@ && ix.row == m.row && ix.column == m.size
                &&& l.per == (m.row, self.drawn.row)
            },
            Some(said) => r matches Err(Error::Decode(e)) && e@ == said,
        }
    }

    /// The pieces to draw the page in, top to bottom: the top of each and its height.
    pub fn pieces(&self) -> (r: Vec<(u32, u32)>)
        requires
            self.metrics.wf(),
        ensures
            r@ == page::pieces_of(self.metrics, self.total as int),
    {
        page::pieces(&self.metrics, self.total)
    }

    /// Where the words landed.
    pub fn index(self) -> (r: Index)
        ensures
            r.lines@ == self.page.lines@,
            r.outline@ == self.page.outline@,
            r.row == self.metrics.row,
            r.column == self.metrics.size,
    {
        let m = self.metrics;
        let page = self.page;
        Index { lines: page.lines, outline: page.outline, row: m.row, column: m.size }
    }

    /// How many of the terminal's pixels one of the page's stands for, as a fraction: one, unless the
    /// cap made the page coarser.
    pub fn per(&self) -> (r: (u32, u32))
        ensures
            r == (self.metrics.row, self.drawn.row),
    {
        (self.metrics.row, self.drawn.row)
    }

    /// Draw the page in one piece, and keep where its words landed.
    pub fn load(self, bg: Rgb, faces: &Faces) -> (r: Result<Loaded, Error>)
        requires
            self.fits(),
        ensures
            self.loads_as(bg, *faces, r),
    {
        match raster::draw(&self.page, &self.metrics, &self.drawn, bg, 0, self.total, faces) {
            Ok(fb) => {
                let per = self.per();
                Ok(Loaded { fb, index: Some(self.index()), per })
            },
            Err(e) => Err(e),
        }
    }
}

/// A source as what there is to draw.
//
// a picture is one piece and always has been. a document can be
// several, because stacking them down the scrollback beats
// handing a terminal a single image it may not take, and beats
// cutting the document off at the fold
#[derive(Debug)]
pub enum Pieces {
    /// A picture that is pixels already.
    Whole(Framebuffer),
    /// A picture that has no pixels of its own: an SVG, or the first page of a PDF.
    Vector(Format),
    /// A document, laid out.
    Flowed(Flowed),
}

/// Whether `r` is what the decoder makes of `bytes`.
pub closed spec fn decodes_as(bytes: Seq<u8>, r: Result<Framebuffer, String>) -> bool {
    exists|s: &[u8]| s@ == bytes && #[trigger] call_ensures(decode, (s,), r)
}

/// Whether `r` is the picture that `bytes` hold, or what is wrong with it.
pub open spec fn pictured(bytes: Seq<u8>, r: Result<Framebuffer, Error>) -> bool {
    &&& match r {
        Ok(fb) => fb.wf() && decodes_as(bytes, Ok(fb)),
        Err(e) => e matches Error::Decode(said) && decodes_as(bytes, Err(said)),
    }
    &&& text::occurs_at(bytes, png_magic(), 0) ==> match png_picture(bytes) {
        Ok(pic) => r matches Ok(fb) && pic == (Picture { w: fb.w, h: fb.h, px: fb.px@ }),
        Err(msg) => r matches Err(e) && e.said() == msg,
    }
}

/// Decode `bytes` as what it should be drawn in.
pub fn pieces(bytes: &[u8], ext: &str, hints: &Hints, theme: &Theme, h: &Highlighter) -> (r: Result<
    Pieces,
    Error,
>)
    requires
        h.wf(),
    ensures
        match format_of(bytes@, ext@) {
            Format::Raster => match r {
                Ok(p) => p matches Pieces::Whole(fb) && pictured(bytes@, Ok(fb)),
                Err(e) => pictured(bytes@, Err(e)),
            },
            Format::Svg => r == Ok::<Pieces, Error>(Pieces::Vector(Format::Svg)),
            Format::Pdf => r == Ok::<Pieces, Error>(Pieces::Vector(Format::Pdf)),
            Format::Markdown => r matches Ok(Pieces::Flowed(f)) && f.shows(bytes@, *hints, *theme),
            Format::Unknown => r matches Err(Error::Unsupported(what)) && what@
                == "unrecognized file"@,
        },
{
    match sniff(bytes, ext) {
        Format::Raster => match decode(bytes) {
            Ok(fb) => Ok(Pieces::Whole(fb)),
            Err(e) => Err(Error::Decode(e)),
        },
        Format::Svg => Ok(Pieces::Vector(Format::Svg)),
        Format::Pdf => Ok(Pieces::Vector(Format::Pdf)),
        Format::Markdown => {
            let (page, metrics) = lay_out(bytes, hints, theme, h);
            let total: u32 = drawn_height(page.rows, &metrics, hints.max_h);
            let drawn = raster::drawn(&metrics, hints.max_px);
            let flowed = Flowed { page, metrics, total, drawn };
            proof {
                lemma_pages_fit(metrics, page.rows as int, hints.max_h as int, hints.max_px as int);
            }
            Ok(Pieces::Flowed(flowed))
        },
        Format::Unknown => Err(Error::Unsupported("unrecognized file")),
    }
}

/// However long a document is, what is drawn of it fits in memory.
proof fn lemma_pages_fit(m: Metrics, rows: int, max_h: int, max_px: int)
    requires
        m.wf(),
        0 <= rows,
        0 <= max_px,
    ensures
        ({
            let total = page::height_of(rows * m.row, m.width as int, max_h);
            let w = raster::drawn_of(m, max_px).w;
            &&& 0 < total <= i32::MAX
            &&& 4 * (w * total) <= isize::MAX
        }),
{
    let width = m.width as int;
    let total = page::height_of(rows * m.row, width, max_h);
    let room = page::MAX_PIXELS * page::GRAINS / width;
    geometry::lemma_quotient(page::MAX_PIXELS * page::GRAINS, width);
    assert(1 <= room <= page::MAX_PIXELS) by (nonlinear_arith)
        requires
            page::GRAINS == 2_516_992,
            page::MAX_PIXELS == 16_000_000,
            2_516_992 <= width <= 0x5_0000_0000,
            room * width <= 16_000_000 * 2_516_992 < (room + 1) * width,
    ;
    let w = raster::drawn_of(m, max_px).w as int;
    raster::lemma_no_wider(m, max_px);
    assert(w * total <= 2 * page::MAX_PIXELS) by (nonlinear_arith)
        requires
            page::GRAINS == 2_516_992,
            page::MAX_PIXELS == 16_000_000,
            2_516_992 <= width,
            w * page::GRAINS <= width + page::GRAINS,
            room * width <= 16_000_000 * 2_516_992,
            1 <= total <= room <= page::MAX_PIXELS,
            0 <= w,
    ;
}

/// Decode `bytes` whole. Nothing comes of a picture that has no pixels of its own.
pub fn load(
    bytes: &[u8],
    ext: &str,
    hints: &Hints,
    theme: &Theme,
    h: &Highlighter,
    faces: &Faces,
) -> (r: Result<Option<Loaded>, Error>)
    requires
        h.wf(),
    ensures
        match format_of(bytes@, ext@) {
            Format::Raster => match r {
                Ok(l) => l matches Some(l) && pictured(bytes@, Ok(l.fb)) && l.index is None && l.per
                    == (1u32, 1u32),
                Err(e) => pictured(bytes@, Err(e)),
            },
            Format::Svg | Format::Pdf => r == Ok::<Option<Loaded>, Error>(None),
            Format::Markdown => exists|f: Flowed|
                {
                    &&& #[trigger] f.shows(bytes@, *hints, *theme)
                    &&& match r {
                        Ok(l) => l matches Some(l) && f.loads_as(theme.bg, *faces, Ok(l)),
                        Err(e) => f.loads_as(theme.bg, *faces, Err(e)),
                    }
                },
            Format::Unknown => r matches Err(Error::Unsupported(what)) && what@
                == "unrecognized file"@,
        },
{
    match pieces(bytes, ext, hints, theme, h) {
        Ok(Pieces::Whole(fb)) => Ok(Some(Loaded { fb, index: None, per: (1, 1) })),
        Ok(Pieces::Vector(_)) => Ok(None),
        Ok(Pieces::Flowed(f)) => {
            let ghost laid = f;
            let r = f.load(theme.bg, faces);
            assert(laid.shows(bytes@, *hints, *theme) && laid.loads_as(theme.bg, *faces, r));
            match r {
                Ok(l) => Ok(Some(l)),
                Err(e) => Err(e),
            }
        },
        Err(e) => Err(e),
    }
}

/// A picture comes in one piece, and a PNG's is the picture loaded whole.
pub proof fn law_a_picture_is_one_piece(bytes: Seq<u8>, piece: Framebuffer, whole: Framebuffer)
    requires
        text::occurs_at(bytes, png_magic(), 0),
        pictured(bytes, Ok(piece)),
        pictured(bytes, Ok(whole)),
    ensures
        piece.w == whole.w,
        piece.h == whole.h,
        piece.px@ == whole.px@,
{
}

/// A document stays a document whatever it speaks of: nothing after its first bytes is read where
/// its extension means markdown.
pub proof fn law_markdown_goes_by_its_extension(bytes: Seq<u8>, ext: Seq<char>)
    requires
        means_markdown(ext),
        !text::occurs_at(bytes, png_magic(), 0),
        !text::occurs_at(bytes, jpeg_magic(), 0),
        !text::occurs_at(bytes, pdf_magic(), 0),
    ensures
        format_of(bytes, ext) == Format::Markdown,
{
}

/// What a file is called matters only where its first bytes settle nothing.
pub proof fn law_content_comes_before_the_name(bytes: Seq<u8>, a: Seq<char>, b: Seq<char>)
    requires
        text::occurs_at(bytes, png_magic(), 0) || text::occurs_at(bytes, jpeg_magic(), 0)
            || text::occurs_at(bytes, pdf_magic(), 0),
    ensures
        format_of(bytes, a) == format_of(bytes, b),
        format_of(bytes, a) != Format::Markdown,
{
}

/// The first bytes of a file tell a PNG, a JPEG and a PDF, whatever it is called.
pub proof fn law_the_first_bytes_tell(rest: Seq<u8>, ext: Seq<char>)
    ensures
        format_of(
            seq![0x89u8, 0x50, 0x4e, 0x47, 0x0d, 0x0a, 0x1a, 0x0a] + rest,
            ext,
        ) == Format::Raster,
        format_of(seq![0xffu8, 0xd8, 0xff] + rest, ext) == Format::Raster,
        format_of(seq![0x25u8, 0x50, 0x44, 0x46, 0x2d] + rest, ext) == Format::Pdf,
{
    let png = seq![0x89u8, 0x50, 0x4e, 0x47, 0x0d, 0x0a, 0x1a, 0x0a] + rest;
    let jpeg = seq![0xffu8, 0xd8, 0xff] + rest;
    let pdf = seq![0x25u8, 0x50, 0x44, 0x46, 0x2d] + rest;
    assert(png.subrange(0, 8) =~= png_magic());
    assert(jpeg.subrange(0, 3) =~= jpeg_magic());
    assert(pdf.subrange(0, 5) =~= pdf_magic());
    if text::occurs_at(pdf, png_magic(), 0) {
        assert(pdf.subrange(0, 8)[0] == pdf[0]);
    }
    if text::occurs_at(pdf, jpeg_magic(), 0) {
        assert(pdf.subrange(0, 3)[0] == pdf[0]);
    }
}

/// Where the first bytes tell nothing, a name that ends in one of markdown's extensions is markdown's,
/// capitals or not; then a root element in the first kilobyte, or the name, tells an SVG, and the name a
/// PDF. Nothing else is known.
pub proof fn law_the_name_tells_where_the_bytes_do_not(bytes: Seq<u8>, ext: Seq<char>)
    requires
        !text::occurs_at(bytes, png_magic(), 0),
        !text::occurs_at(bytes, jpeg_magic(), 0),
        !text::occurs_at(bytes, pdf_magic(), 0),
    ensures
        ({
            let e = text::lowered(ext);
            let markdown = e == "md"@ || e == "markdown"@ || e == "mdown"@ || e == "mkd"@;
            let rooted = exists|i: int|
                0 <= i && i + 4 <= bytes.len() && i + 4 <= 1024 && #[trigger] bytes.subrange(i, i + 4)
                    == seq![0x3cu8, 0x73, 0x76, 0x67];
            &&& markdown ==> format_of(bytes, ext) == Format::Markdown
            &&& !markdown && (rooted || e == "svg"@) ==> format_of(bytes, ext) == Format::Svg
            &&& !markdown && !rooted && e == "pdf"@ ==> format_of(bytes, ext) == Format::Pdf
            &&& !markdown && !rooted && e != "svg"@ && e != "pdf"@ ==> format_of(bytes, ext)
                == Format::Unknown
        }),
{
    let h = head(bytes);
    text::lemma_first_from(h, svg_root(), 0);
    let rooted = exists|i: int|
        0 <= i && i + 4 <= bytes.len() && i + 4 <= 1024 && #[trigger] bytes.subrange(i, i + 4) == seq![
            0x3cu8,
            0x73,
            0x76,
            0x67,
        ];
    assert(svg_root() == seq![0x3cu8, 0x73, 0x76, 0x67]);
    if rooted {
        let i = choose|i: int|
            0 <= i && i + 4 <= bytes.len() && i + 4 <= 1024 && #[trigger] bytes.subrange(i, i + 4)
                == seq![0x3cu8, 0x73, 0x76, 0x67];
        assert(h.subrange(i, i + 4) =~= bytes.subrange(i, i + 4));
        assert(text::occurs_at(h, svg_root(), i));
    }
    if let Some(i) = text::first_from(h, svg_root(), 0) {
        assert(h.subrange(i, i + 4) =~= bytes.subrange(i, i + 4));
    }
    reveal_strlit("svg");
    reveal_strlit("pdf");
    assert("svg"@[0] != "pdf"@[0]);
}

/// Only a markdown file is a document; all else is a picture.
pub proof fn law_only_markdown_is_a_document(bytes: &[u8], ext: &str, r: Kind)
    requires
        call_ensures(kind, (bytes, ext), r),
    ensures
        format_of(bytes@, ext@) == Format::Markdown ==> r == Kind::Document,
        format_of(bytes@, ext@) != Format::Markdown ==> r == Kind::Image,
{
}

/// An error says what it is about.
pub proof fn law_an_error_says_what_it_is(what: &'static str, msg: String)
    ensures
        Error::Unsupported(what).said() == "unsupported format: "@ + what@,
        Error::Decode(msg).said() == msg@,
{
}

/// A document that is laid out is that of its bytes, in the sizes its cells and its room give it, drawn as
/// far as was asked for.
pub proof fn law_a_document_is_laid_out_from_its_bytes(
    f: Flowed,
    bytes: Seq<u8>,
    hints: Hints,
    theme: Theme,
)
    requires
        f.shows(bytes, hints, theme),
    ensures
        f.metrics == page::metrics_of(hints.cell, hints.max_w),
        layout::items_drawn(f.page.items@) == layout::drawn(
            page::setting_of(f.metrics, theme),
            page::tree_of(bytes),
        ).items,
        index::line_models(f.page.lines@) == layout::page_lines(layout::items_drawn(f.page.items@)),
        index::heading_models(f.page.outline@) == layout::drawn(
            page::setting_of(f.metrics, theme),
            page::tree_of(bytes),
        ).outline,
        f.total == page::height_of(
            f.page.rows * f.metrics.row,
            f.metrics.width as int,
            hints.max_h as int,
        ),
        f.drawn == raster::drawn_of(f.metrics, hints.max_px as int),
{
}

} // verus!
