use gat::framebuffer::{can_resize, flatten_onto, resize, straighten, Framebuffer};
use gat::geometry::{Budget, CellSize};
use gat::print::{budget, deliver, extent, hints, plan, show, Ids};
use gat::render::kitty::{print_id, PRINT_SPAN};
use gat::source::index::{Heading, Hit, Index, Line};
use gat::source::markdown::highlight::Highlighter;
use gat::source::markdown::layout::Theme;
use gat::source::markdown::raster::Faces;
use gat::source::{
    kind, load as whole, pieces, sniff, Error, Format, Hints, Kind, Loaded, Pieces,
};
use gat::term::{Protocol, Terminal};
use gat::tui::view::{row_top, Shown};

fn line(y: usize, text: &str) -> Line {
    Line { y, x: 0, h: 1, advance: 100, text: text.into() }
}

fn index(lines: &[(usize, &str)]) -> Index {
    Index {
        lines: lines.iter().map(|(y, text)| line(*y, text)).collect(),
        outline: Vec::new(),
        row: 10,
        column: 20480,
    }
}

#[test]
fn a_search_ignores_ascii_case_and_answers_in_page_order() {
    let ix = index(&[(0, "The Quick Fox"), (1, "a quick brown"), (2, "slow")]);
    assert_eq!(ix.find("quick"), vec![0, 1]);
    assert_eq!(ix.find("QUICK"), vec![0, 1]);
    assert_eq!(ix.find("slow"), vec![2]);
}

#[test]
fn a_search_for_nothing_matches_nothing() {
    let ix = index(&[(0, "text")]);
    assert!(ix.find("").is_empty());
    assert!(ix.find("absent").is_empty());
    assert!(ix.hits("").is_empty());
}

#[test]
fn a_hit_counts_columns_and_not_characters() {
    let ix = index(&[(0, "世界 Quick"), (1, "slow")]);
    assert_eq!(ix.hits("quick"), vec![Hit { line: 0, col: 5, cols: 5 }]);
    assert_eq!(ix.hits("界"), vec![Hit { line: 0, col: 2, cols: 2 }]);
}

#[test]
fn scaling_moves_every_position_by_the_same_factor() {
    let mut ix = index(&[(1, "a"), (2, "b")]);
    ix.outline.push(Heading { level: 1, text: "h".into(), y: 4 });
    let halved = Shown {
        w: 1,
        h: 1,
        bands: Vec::new(),
        kind: Kind::Document,
        cell: CellSize { w: 5, h: 10 },
        num: 2,
        den: 1,
        index: None,
    };

    // in sixtieths of a pixel, with a pixel standing for two
    assert_eq!(row_top(&halved, &ix, ix.lines[0].y), 5 * 60);
    assert_eq!(row_top(&halved, &ix, ix.lines[1].y), 10 * 60);
    assert_eq!(row_top(&halved, &ix, ix.outline[0].y), 20 * 60);
}

#[test]
fn a_format_is_told_by_its_first_bytes() {
    assert_eq!(sniff(b"\x89PNG\r\n\x1a\nrest", "md"), Format::Raster);
    assert_eq!(sniff(b"\xff\xd8\xff\xe0", ""), Format::Raster);
    assert_eq!(sniff(b"%PDF-1.7", "svg"), Format::Pdf);
    assert_eq!(sniff(b"<?xml?><!-- x --><svg>", ""), Format::Svg);
    assert_eq!(sniff(b"plain", "SVG"), Format::Svg);
    assert_eq!(sniff(b"plain", "pdf"), Format::Pdf);
    assert_eq!(sniff(b"plain", "txt"), Format::Unknown);
    let mut late = vec![b' '; 1021];
    late.extend_from_slice(b"<svg");
    assert_eq!(sniff(&late, ""), Format::Unknown);
}

#[test]
fn a_document_about_svg_is_still_a_document() {
    for ext in ["md", "MD", "markdown", "mdown", "mkd"] {
        assert_eq!(sniff(b"the <svg> element", ext), Format::Markdown);
        assert_eq!(kind(b"the <svg> element", ext), Kind::Document);
    }
    assert_eq!(kind(b"the <svg> element", "txt"), Kind::Image);
}

const HINTS: Hints = Hints {
    max_w: 800,
    max_h: 600,
    cell: CellSize { w: 10, h: 20 },
    max_px: 1_048_576,
};

fn load(bytes: &[u8], ext: &str) -> Result<Pieces, Error> {
    pieces(bytes, ext, &HINTS, &Theme::dark(), &Highlighter::new())
}

fn png(w: u32, h: u32, px: &[u8]) -> Vec<u8> {
    let mut out = Vec::new();
    let enc = image::codecs::png::PngEncoder::new(&mut out);
    image::ImageEncoder::write_image(enc, px, w, h, image::ExtendedColorType::Rgba8).unwrap();
    out
}

#[test]
fn a_png_decodes_to_its_pixels() {
    let px = [1, 2, 3, 4, 5, 6, 7, 8];
    let Ok(Pieces::Whole(fb)) = load(&png(2, 1, &px), "") else {
        panic!("a png should decode");
    };
    assert_eq!((fb.width(), fb.height()), (2, 1));
    assert_eq!(*fb.as_raw(), px.to_vec());
}

fn load_whole(bytes: &[u8], ext: &str) -> Result<Option<Loaded>, Error> {
    let faces = Faces::new(Vec::new());
    whole(bytes, ext, &HINTS, &Theme::dark(), &Highlighter::new(), &faces)
}

#[test]
fn a_picture_is_the_one_piece_of_itself() {
    let bytes = png(2, 2, &[9; 16]);
    let Ok(Pieces::Whole(piece)) = load(&bytes, "") else {
        panic!("a png should decode");
    };
    let Ok(Some(l)) = load_whole(&bytes, "") else {
        panic!("a png should load");
    };
    assert_eq!((l.fb.width(), l.fb.height()), (piece.width(), piece.height()));
    assert_eq!(l.fb.as_raw(), piece.as_raw());
    assert!(l.index.is_none());
    assert_eq!(l.per, (1, 1));

    let mut jpeg = Vec::new();
    let enc = image::codecs::jpeg::JpegEncoder::new(&mut jpeg);
    image::ImageEncoder::write_image(enc, &[200; 48], 4, 4, image::ExtendedColorType::Rgb8).unwrap();
    let Ok(Pieces::Whole(piece)) = load(&jpeg, "") else {
        panic!("a jpeg should decode");
    };
    let Ok(Some(l)) = load_whole(&jpeg, "") else {
        panic!("a jpeg should load");
    };
    assert_eq!((l.fb.width(), l.fb.height()), (4, 4));
    assert_eq!(l.fb.as_raw(), piece.as_raw());
}

#[test]
fn a_source_loads_whole_or_says_why_not() {
    let Ok(Some(l)) = load_whole(b"# One\n\ntext\n", "md") else {
        panic!("a document should load");
    };
    let Ok(Pieces::Flowed(f)) = load(b"# One\n\ntext\n", "md") else {
        panic!("a document should lay out");
    };
    assert_eq!((l.fb.width(), l.fb.height()), (f.drawn.w, f.total));
    assert_eq!(l.index.expect("a document has an index").outline.len(), 1);
    assert!(matches!(load_whole(b"<svg/>", ""), Ok(None)));
    assert!(matches!(load_whole(b"%PDF-1.4", ""), Ok(None)));
    assert!(matches!(load_whole(b"plain", "txt"), Err(Error::Unsupported(_))));
    assert!(matches!(load_whole(b"\x89PNG\r\n\x1a\nbroken", ""), Err(Error::Decode(_))));
}

#[test]
fn what_cannot_be_shown_says_why() {
    let Err(e) = load(b"plain", "txt") else {
        panic!("a text file was taken for a picture");
    };
    assert_eq!(e.message(), "unsupported format: unrecognized file");
    let Err(e) = load(b"\x89PNG\r\n\x1a\nbroken", "") else {
        panic!("half a png was taken for one");
    };
    assert!(matches!(e, Error::Decode(_)));
    assert!(!e.message().is_empty());
}

#[test]
fn a_vector_picture_is_left_to_its_renderer() {
    assert!(matches!(load(b"<svg/>", ""), Ok(Pieces::Vector(Format::Svg))));
    assert!(matches!(load(b"%PDF-1.4", ""), Ok(Pieces::Vector(Format::Pdf))));
}

#[test]
fn bytes_that_are_no_text_are_replaced_and_drawn() {
    let Ok(Pieces::Flowed(f)) = load(b"caf\xff\n", "md") else {
        panic!("a document should lay out");
    };
    assert_eq!(f.page.lines[0].text, "caf\u{fffd}");
    assert_eq!(f.pieces(), vec![(0, f.total)]);
}

#[test]
fn transparency_shows_the_background() {
    let mut fb = Framebuffer::from_raw(2, 1, vec![10, 20, 30, 0, 200, 100, 0, 255]).unwrap();
    flatten_onto(&mut fb, [1, 2, 3]);
    assert_eq!(*fb.as_raw(), vec![1, 2, 3, 255, 200, 100, 0, 255]);
    let mut half = Framebuffer::from_raw(1, 1, vec![255, 0, 0, 51]).unwrap();
    flatten_onto(&mut half, [0, 0, 255]);
    assert_eq!(*half.as_raw(), vec![51, 0, 204, 255]);
}

#[test]
fn premultiplied_pixels_are_made_straight() {
    let mut px = vec![64, 32, 0, 128, 9, 9, 9, 0, 7, 8, 9, 255, 200, 0, 0, 100];
    straighten(&mut px);
    assert_eq!(px, vec![128, 64, 0, 128, 9, 9, 9, 0, 7, 8, 9, 255, 255, 0, 0, 100]);
}

#[test]
fn a_picture_is_scaled_to_the_size_asked_for() {
    let fb = Framebuffer::from_raw(2, 2, vec![50; 16]).unwrap();
    assert!(can_resize(&fb, 4, 1));
    let big = resize(&fb, 4, 1);
    assert_eq!((big.width(), big.height()), (4, 1));
    assert_eq!(*big.as_raw(), vec![50; 16]);
    let same = resize(&fb, 2, 2);
    assert_eq!(*same.as_raw(), *fb.as_raw());

    // a side that single precision does not count cannot be resampled, and need not be
    let long = Framebuffer::new(0x0100_0001, 1);
    assert!(!can_resize(&long, 5, 1));
    assert!(can_resize(&long, 0x0100_0001, 1));
    assert_eq!(resize(&long, 0x0100_0001, 1).width(), 0x0100_0001);
}

#[test]
fn pixels_that_do_not_fit_their_size_are_no_picture() {
    assert!(Framebuffer::from_raw(2, 2, vec![0; 15]).is_none());
    assert_eq!(*Framebuffer::new(1, 1).as_raw(), vec![0; 4]);
}

fn room() -> Budget {
    Budget {
        cols: 80,
        rows: 24,
        cell: CellSize { w: 10, h: 20 },
        upscale: false,
        fill_width: false,
        fill_height: false,
    }
}

#[test]
fn a_small_picture_is_written_as_it_is() {
    let p = plan(40, 30, false, (1, 1), &room(), 1_048_576);
    assert_eq!((p.w, p.h, p.cells, p.rows), (40, 30, None, 2));
    let mut out = String::new();
    let fb = Framebuffer::new(40, 30);
    assert!(show(&mut out, fb, false, (1, 1), &room(), 1_048_576, [0, 0, 0], 5));
    assert!(out.starts_with("\x1b_Ga=T,C=1,i=5,q=2,f=32,o=z,s=40,v=30,m=0;"), "{out:?}");
    assert!(out.ends_with("\x1b\\\n\n\r"), "{out:?}");
    let mut again = String::new();
    deliver(&mut again, Framebuffer::new(40, 30), &p, [0, 0, 0], 5);
    assert_eq!(again, out);
}

#[test]
fn a_capped_picture_is_drawn_in_the_cells_it_would_have_covered() {
    // fitted to 800x400, then halved to the cap
    let p = plan(1600, 800, false, (1, 1), &room(), 80_000);
    assert_eq!((p.w, p.h, p.cells, p.rows), (400, 200, Some((80, 20)), 20));
    let mut out = String::new();
    let fb = Framebuffer::new(1600, 800);
    assert!(show(&mut out, fb, false, (1, 1), &room(), 80_000, [0, 0, 0], 5));
    assert!(out.contains("c=80,r=20"), "{out:?}");
    assert!(out.contains("s=400,v=200"), "{out:?}");

    // the nearest pixel each way, which is within the cap here
    let wide = Budget { cols: 200, rows: 100, ..room() };
    let p = plan(1920, 1080, false, (1, 1), &wide, 1_048_576);
    assert_eq!((p.w, p.h, p.cells, p.rows), (1365, 768, Some((192, 54)), 54));
    let full = plan(1920, 1080, false, (1, 1), &wide, u64::MAX);
    assert_eq!((full.w, full.h, full.cells, full.rows), (1920, 1080, None, 54));

    // one drawn under the cap is written as it was drawn
    let p = plan(400, 200, false, (2, 1), &room(), 80_000);
    assert_eq!((p.w, p.h, p.cells, p.rows), (400, 200, Some((80, 20)), 20));

    // and never with more pixels than that, a pixel's rounding aside or not
    let p = plan(401, 200, false, (2, 1), &room(), 80_000);
    assert!(p.w * p.h <= 80_000, "{p:?}");
}

#[test]
fn a_page_is_never_fitted() {
    let p = plan(1600, 800, true, (1, 1), &room(), 400);
    assert_eq!((p.w, p.h, p.cells, p.rows), (1600, 800, None, 40));

    // one drawn coarser is put in the cells it would have covered
    let p = plan(300, 100, true, (20, 10), &room(), 90_000);
    assert_eq!((p.w, p.h, p.cells, p.rows), (300, 100, Some((60, 10)), 10));
}

#[test]
fn a_runs_ids_come_from_its_block_or_are_fresh() {
    let mut block = Ids::Block(PRINT_SPAN - 1);
    assert_eq!(block.next(), print_id(PRINT_SPAN - 1));
    assert_eq!(block.next(), print_id(0));
    let mut fresh = Ids::Fresh(40, 0);
    assert_eq!((fresh.next(), fresh.next()), (40, 41));
}

#[test]
fn the_room_there_is_leaves_a_margin_unless_asked_otherwise() {
    let t = Terminal {
        cols: 100,
        rows: 2,
        cell: CellSize { w: 10, h: 20 },
        protocol: Protocol::Kitty,
    };
    let b = budget(&t, None, true, false, true);
    assert_eq!((b.cols, b.rows, b.cell), (98, 1, t.cell));
    assert_eq!((b.upscale, b.fill_width, b.fill_height), (true, false, true));
    let b = budget(&t, Some((7, 8)), false, false, false);
    assert_eq!((b.cols, b.rows), (7, 8));
    let h = hints(&b, false, 9);
    assert_eq!((h.max_w, h.max_h, h.max_px), (70, 160, 9));
    assert_eq!(hints(&b, true, 9).max_h, u32::MAX);
    assert_eq!(extent(u32::MAX, 2), u32::MAX);
}
