use gat::framebuffer::Framebuffer;
use gat::geometry::CellSize;
use gat::source::markdown::emit::emit;
use gat::source::markdown::highlight::Highlighter;
use gat::source::markdown::layout::{Rgb, Theme};
use gat::source::markdown::page::{
    crop, drawn_height, frame, metrics, pieces, Metrics, GRAINS, MAX_PIXELS,
};
use gat::source::markdown::raster::{draw, drawn, finish, Drawn, Faces};
use gat::source::markdown::to_svg::{escape, hex};
use gat::source::{pieces as load, Flowed, Hints, Pieces};

fn hints(w: u32, h: u32) -> Hints {
    Hints {
        max_w: w,
        max_h: h,
        cell: CellSize { w: 14, h: 32 },
        max_px: 1_048_576,
    }
}

fn flowed(md: &[u8], h: &Hints) -> Flowed {
    let Ok(Pieces::Flowed(f)) = load(md, "md", h, &Theme::dark(), &Highlighter::new()) else {
        panic!("markdown should lay out");
    };
    f
}

/// A page of rows a pixel tall, `px` pixels wide.
fn wide(px: u64) -> Metrics {
    Metrics {
        width: px * GRAINS,
        ..metrics(CellSize { w: 14, h: 32 }, 8000)
    }
}

#[test]
fn the_viewer_gets_an_index_that_finds_words_inside_the_page() {
    // what the viewer searches is this index, so a hit
    // has to land inside the pixels it will scroll to
    let md = b"# Heading\n\nfirst line\n\nthe needle is here\n\nlast line\n";
    let f = flowed(md, &hints(800, u32::MAX));
    let total = f.total;
    let ix = f.index();

    let hits = ix.find("NEEDLE");
    assert_eq!(hits.len(), 1, "lines were {:?}", ix.lines);
    let y = ix.lines[hits[0]].y as u32 * ix.row;
    assert!(
        y > 0 && y < total,
        "hit at {y} is outside a page {total} tall"
    );

    assert_eq!(ix.outline.len(), 1);
    assert!(ix.outline[0].y < ix.lines[hits[0]].y, "the heading is above the match");
    let hit = ix.hits("NEEDLE")[0];
    assert_eq!((hit.line, hit.col, hit.cols), (hits[0], 4, 6));
}

#[test]
fn a_body_line_is_exactly_one_terminal_row() {
    // the viewer writes over the page in cells, which only
    // lines up while a line box is the cell it sits on
    for (w, h) in [(7, 14), (9, 18), (10, 20), (14, 32), (8, 30), (20, 20)] {
        let m = metrics(CellSize { w, h }, 800);
        assert_eq!(m.row, h, "a {w}x{h} cell gave a row of {}", m.row);
    }
    assert_eq!(metrics(CellSize { w: 3, h: 6 }, 800).row, 11);
}

#[test]
fn a_body_character_is_exactly_one_cell_wide() {
    for (w, h) in [(9, 18), (10, 20), (14, 32)] {
        assert_eq!(metrics(CellSize { w, h }, 800).size, 2048 * w);
    }
}

#[test]
fn a_page_is_drawn_to_the_height_asked_for() {
    // the one-shot render gets a screenful
    let m = Metrics { row: 1000, ..wide(800) };
    assert_eq!(drawn_height(6, &m, 600), 600);
    let m = Metrics { row: 200, ..wide(800) };
    assert_eq!(drawn_height(1, &m, 600), 200);
    // the viewer asks for the document and gets all of it
    let m = Metrics { row: 1000, ..wide(800) };
    assert_eq!(drawn_height(6, &m, u32::MAX), 6000);
}

#[test]
fn the_pixel_ceiling_overrides_a_generous_caller() {
    // the ceiling is on pixels, so it buys fewer rows the
    // wider the page is
    let wider = drawn_height(usize::MAX, &wide(8000), 100_000);
    assert_eq!(u64::from(wider), MAX_PIXELS / 8000);

    let narrow = drawn_height(usize::MAX, &wide(800), 100_000);
    assert!(narrow > wider, "a narrower page should fit more rows");
    assert_eq!(narrow, 20_000);
}

#[test]
fn a_long_document_comes_back_whole() {
    // the viewer scrolls by cropping this buffer, so the
    // buffer has to hold every line, not one screenful
    let md = "# Heading\n\n".to_owned() + &"A paragraph of body text. ".repeat(400);
    let f = flowed(md.as_bytes(), &hints(800, u32::MAX));
    assert!(
        f.total > 2400,
        "the page was cut to the viewport instead of drawn whole"
    );
    assert_eq!(f.total as usize, f.page.rows * 32);
}

#[test]
fn a_page_leaves_whole_columns_and_rows_at_its_edges() {
    let m = metrics(CellSize { w: 10, h: 20 }, 600);
    let f = frame(&m);
    assert_eq!((f.left, f.margin), (2, 1));
    assert_eq!(f.width, 5600);
}

#[test]
fn a_long_page_comes_in_pieces_that_meet_between_rows() {
    let m = metrics(CellSize { w: 10, h: 20 }, 800);
    assert_eq!(m.width, 800 * GRAINS);
    let got = pieces(&m, 12_345);
    assert_eq!(got, vec![(0, 5000), (5000, 5000), (10_000, 2345)]);
}

#[test]
fn a_page_is_cut_down_or_padded_in_its_own_colour() {
    let fb = Framebuffer::from_raw(1, 2, vec![1, 2, 3, 4, 5, 6, 7, 8]).unwrap();
    let short = crop(fb, 1, Rgb(9, 9, 9));
    assert_eq!((short.width(), short.height()), (1, 1));
    assert_eq!(*short.as_raw(), vec![1, 2, 3, 4]);
    let long = crop(short, 3, Rgb(7, 8, 9));
    assert_eq!(*long.as_raw(), vec![1, 2, 3, 4, 7, 8, 9, 255, 7, 8, 9, 255]);
}

#[test]
fn markup_characters_survive_as_entities() {
    assert_eq!(escape("a < b & c > d"), "a &lt; b &amp; c &gt; d");
    assert_eq!(escape(r#"say "hi""#), "say &quot;hi&quot;");
}

#[test]
fn characters_xml_forbids_are_dropped_not_escaped() {
    // &#12; is as fatal to XML 1.0 as the raw form feed
    assert_eq!(escape("page\u{c}break"), "pagebreak");
    assert_eq!(escape("nul\0byte"), "nulbyte");

    // tab, newline and CR are the C0 characters XML allows
    assert_eq!(escape("a\tb\nc"), "a\tb\nc");
}

#[test]
fn text_is_left_alone_otherwise() {
    assert_eq!(escape("héllo 世界 🦀"), "héllo 世界 🦀");
}

#[test]
fn a_colour_is_six_digits() {
    assert_eq!(hex(Rgb(0x0a, 0xff, 0x10)), "#0aff10");
}

#[test]
fn a_slice_of_a_page_is_a_document_of_its_own() {
    let h = Hints {
        max_w: 600,
        max_h: u32::MAX,
        cell: CellSize { w: 10, h: 20 },
        max_px: 1_048_576,
    };
    let f = flowed(b"one\n\ntwo & three\n", &h);
    let whole = emit(&f.page, &f.metrics, Rgb(0x1e, 0x1e, 0x1e), 0, f.total, None);
    assert!(
        whole.starts_with(
            "<svg xmlns='http://www.w3.org/2000/svg' width='600.000' height='100' \
             viewBox='0 0 600.000 100' preserveAspectRatio='none' xml:space='preserve'>\
             <rect width='100%' height='100%' fill='#1e1e1e'/>\
             <g font-family='Liberation Mono' font-kerning='none' \
             transform='translate(0,-0)'>"
        ),
        "{whole}"
    );
    assert!(whole.ends_with("</g></svg>"), "{whole}");
    assert!(
        whole.contains(
            "<text x='20.000' y='34.996' font-size='16.664' fill='#d4d4d4'>one</text>"
        ),
        "{whole}"
    );
    assert!(whole.contains(">two &amp; three</text>"), "{whole}");

    // what is far above the slice is not in it
    let below = emit(&f.page, &f.metrics, Rgb(0x1e, 0x1e, 0x1e), 60, 40, None);
    assert!(below.contains("translate(0,-60)"), "{below}");
    assert!(!below.contains(">one<"), "{below}");
    assert!(below.contains("two"), "{below}");
}

#[test]
fn a_page_comes_out_as_pixels() {
    let h = Hints {
        max_w: 600,
        max_h: u32::MAX,
        cell: CellSize { w: 10, h: 20 },
        max_px: 1_048_576,
    };
    let f = flowed(b"```\ncode\n```\n\ntext\n", &h);
    let bg = Theme::dark().bg;
    let faces = Faces::new(Vec::new());
    let fb = draw(&f.page, &f.metrics, &f.drawn, bg, 0, f.total, &faces).expect("should draw");
    assert_eq!((fb.width(), fb.height()), (600, f.total));

    // the page's own colour in its corner, and the code block's somewhere below
    assert_eq!(fb.as_raw()[..4], [0x1e, 0x1e, 0x1e, 0xff]);
    assert!(fb.as_raw().chunks(4).any(|p| p == [0x2a, 0x2a, 0x2a, 0xff]));

    // drawn in one piece, with its words
    let whole = flowed(b"```\ncode\n```\n\ntext\n", &h).load(bg, &faces).expect("should draw");
    assert_eq!(whole.fb.as_raw(), fb.as_raw());
    assert_eq!(whole.per, (20, 20));
    assert_eq!(whole.index.expect("a document carries an index").find("text").len(), 1);

    let slice = draw(&f.page, &f.metrics, &f.drawn, bg, 20, 30, &faces).expect("should draw");
    assert_eq!((slice.width(), slice.height()), (600, 30));
    assert_eq!(slice.as_raw()[..], fb.as_raw()[600 * 20 * 4..600 * 50 * 4]);
}

#[test]
fn a_page_over_the_cap_is_drawn_coarser() {
    let h = Hints {
        max_w: 600,
        max_h: u32::MAX,
        cell: CellSize { w: 10, h: 20 },
        max_px: 90_000,
    };
    let md = b"```\ncode\n```\n\ntext\n";
    let f = flowed(md, &h);
    assert_eq!(f.drawn, Drawn { row: 10, w: 300 });
    assert_eq!(f.per(), (20, 10));
    let (total, faces) = (f.total, Faces::new(Vec::new()));
    let svg = emit(&f.page, &f.metrics, Rgb(0, 0, 0), 0, total, Some((300, total / 2)));
    assert!(svg.contains(&format!("width='300' height='{}' viewBox='0 0 600.000", total / 2)));
    let loaded = f.load(Theme::dark().bg, &faces).expect("should draw");
    assert_eq!((loaded.fb.width(), loaded.fb.height()), (300, total / 2));
    assert_eq!(loaded.per, (20, 10));

    // half as fine, and the same page
    let px = loaded.fb.as_raw();
    assert_eq!(px[..4], [0x1e, 0x1e, 0x1e, 0xff]);
    assert!(px.chunks(4).any(|p| p == [0x2a, 0x2a, 0x2a, 0xff]));
    let fine = flowed(md, &Hints { max_px: 1_048_576, ..h });
    assert_eq!(fine.total, total);
    let fine = fine.load(Theme::dark().bg, &faces).expect("should draw").fb;
    for (x, y) in [(150usize, 5usize), (150, 15), (150, 25), (5, 25), (150, 45)] {
        let at = |fb: &Framebuffer, x: usize, y: usize| {
            let i = 4 * (y * fb.width() as usize + x);
            fb.as_raw()[i..i + 4].to_vec()
        };
        assert_eq!(at(&loaded.fb, x, y), at(&fine, 2 * x, 2 * y), "at {x},{y}");
    }

    let m = metrics(CellSize { w: 10, h: 20 }, 600);
    assert_eq!(drawn(&m, 360_000), Drawn { row: 20, w: 600 });
    assert_eq!(drawn(&m, 359_999), Drawn { row: 19, w: 570 });
    assert_eq!(drawn(&m, 1), Drawn { row: 1, w: 1 });
}

#[test]
fn a_first_heading_stands_at_the_top_margin() {
    let f = flowed(b"# One\n\ntext\n\n# Two\n", &hints(800, u32::MAX));
    let margin = frame(&f.metrics).margin;
    assert_eq!(f.page.outline[0].y, margin);
    assert_eq!(f.page.lines[0].y, margin);
    assert!(f.page.outline[1].y > margin);
}

#[test]
fn what_was_painted_is_made_straight() {
    let fb = finish(Some(vec![10, 20, 30, 128]), 1, 1).unwrap();
    assert_eq!(fb.as_raw()[..], [20, 40, 60, 128]);
    assert_eq!(finish(None, 3, 4).unwrap_err().message(), "cannot allocate 3x4 pixmap");
    assert_eq!(finish(Some(vec![1, 2, 3]), 1, 1).unwrap_err().message(), "short pixmap");
}
