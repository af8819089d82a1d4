use gat::framebuffer::Framebuffer;
use gat::geometry::CellSize;
use gat::render::kitty::Encoded;
use gat::source::index::{Heading, Hit, Index, Line};
use gat::source::Kind;
use gat::tui::bands::{band_height, placed, split, MAX_SIDE};
use gat::tui::draw::{
    document as is_document, draw, mark, spinner_frame, spinner_text, status_line, PATIENCE,
    SPIN_TICK,
};
use gat::tui::keys::{
    decode_keys, graphics_error, keys_from, type_into, unfinished, Key, Typed,
};
use gat::tui::load::{banded, hints, ready, reduced, Reduced};
use gat::tui::search::{first_hit, heading, step};
use gat::tui::view::{
    go_to_end, pan, placement, scroll_to, snap, window, zoom_by, Aim, Band, Shown, Zoom,
};
use gat::tui::viewer::{forget_all, Viewer, TICK};

const CELL: CellSize = CellSize { w: 10, h: 20 };

/// How many units a pixel has where a pixel stands for one of the terminal's.
const UNIT: i128 = 30;

fn image(w: u32, h: u32) -> Framebuffer {
    Framebuffer::new(w, h)
}

fn zoom(num: u64, den: u64) -> Zoom {
    Zoom { num, den }
}

fn view(z: Zoom, cx: i128, cy: i128) -> Aim {
    Aim { zoom: z, cx: cx * UNIT, cy: cy * UNIT, heading: None }
}

/// What `status_line` drew, with its own positioning prefix removed.
fn drawn(text: &str) -> String {
    let mut out = String::new();
    status_line(&mut out, (80, 24), text);
    out.strip_prefix("\x1b[24;1H\x1b[K").unwrap().to_owned()
}

fn shown(w: u32, h: u32, kind: Kind) -> Shown {
    Shown {
        w,
        h,
        bands: vec![Band { y: 0, h, id: 1 }],
        kind,
        cell: CELL,
        num: 1,
        den: 1,
        index: None,
    }
}

/// The same page cut into bands `tall` pixels each, as a long one is.
fn cut_up(w: u32, h: u32, tall: u32) -> Shown {
    let mut s = shown(w, h, Kind::Document);
    s.bands = (0..h.div_ceil(tall))
        .map(|i| Band { y: i * tall, h: tall.min(h - i * tall), id: 100 + i })
        .collect();
    s
}

/// A page 4000 pixels tall whose lines sit every 20 pixels.
fn document() -> Shown {
    let mut s = shown(400, 4000, Kind::Document);
    s.index = Some(Index {
        lines: (0..200)
            .map(|i| Line { y: i, x: 0, h: 1, advance: 100, text: format!("line {i}") })
            .collect(),
        outline: Vec::new(),
        row: 20,
        column: 20480,
    });
    s
}

/// The top of the window, in units.
fn top_of(s: &Shown, v: &Aim) -> i128 {
    window(s, v, (80, 25)).0
}

#[test]
fn a_search_takes_only_the_bytes_up_to_the_return() {
    // read_burst hands over whatever arrived together, so
    // a key pressed just after return rides along in the
    // same input and must not join the query
    let mut buf = Vec::new();
    let (outcome, taken) = type_into(&mut buf, b"ab\rc");
    assert!(matches!(outcome, Typed::Done));
    assert_eq!(taken, 3);
    assert_eq!(buf, b"ab");
}

#[test]
fn a_cancelled_search_also_leaves_the_rest_of_the_burst() {
    let mut buf = Vec::new();
    let (outcome, taken) = type_into(&mut buf, b"ab\x1bq");
    assert!(matches!(outcome, Typed::Cancelled));
    assert_eq!(taken, 3);
}

#[test]
fn a_search_accumulates_across_bursts() {
    let mut buf = Vec::new();
    let (outcome, taken) = type_into(&mut buf, b"ab");
    assert!(matches!(outcome, Typed::More));
    assert_eq!(taken, 2);
    type_into(&mut buf, b"cd");
    assert_eq!(buf, b"abcd");
}

#[test]
fn backspace_removes_a_whole_character_and_stops_at_empty() {
    let mut buf = "aé".as_bytes().to_vec();
    assert_eq!(buf.len(), 3, "é is two bytes");

    type_into(&mut buf, b"\x7f");
    assert_eq!(String::from_utf8(buf.clone()).unwrap(), "a");

    // twice more than there is to delete
    type_into(&mut buf, b"\x7f\x7f");
    assert!(buf.is_empty());
}

/// The status line `draw` ended up writing.
fn status_of(kind: Kind, name: &str) -> String {
    let mut all = String::new();
    draw(
        &mut all,
        &Some(shown(400, 4000, kind)),
        &view(zoom(1, 1), 200, 300),
        (100, 24),
        name,
        0,
        1,
        &None,
        &None,
        &[],
        0,
    );
    all.rsplit("\x1b[K").next().unwrap_or_default().to_owned()
}

#[test]
fn a_band_fits_what_a_terminal_will_take() {
    // herdr drops an image whose base64-estimated size
    // passes 30 MiB with no error and nothing in its log,
    // so this is herdr's own sum, run against our bands
    const BUDGET: u64 = 30 * 1024 * 1024;

    for w in [300, 400, 1267, 1920, 3840, 8000] {
        for cell_h in [16, 20, 32, 48] {
            let h = band_height(w, cell_h);
            let rgba = u64::from(w) * u64::from(h) * 4;
            let wire = rgba.div_ceil(3) * 4 + rgba.div_ceil(3072) * 16 + 1024;

            assert!(wire <= BUDGET, "{w}x{h} estimates {wire} bytes");
            assert!(h <= MAX_SIDE, "{w}x{h} is taller than a terminal stores");
            assert_eq!(h % cell_h, 0, "{w}x{h} is not a whole number of rows");
        }
    }
}

#[test]
fn a_page_is_cut_into_bands_that_cover_it_exactly() {
    let (bands, payloads) = split(&image(40, 100), 30, 500, 0);
    assert_eq!(bands.len(), 4);

    assert_eq!(
        bands.iter().map(|b| (b.y, b.h)).collect::<Vec<_>>(),
        vec![(0, 30), (30, 30), (60, 30), (90, 10)],
        "contiguous, and the last one is the remainder"
    );
    assert_eq!(
        payloads.iter().map(|e| (e.w, e.h)).collect::<Vec<_>>(),
        vec![(40, 30), (40, 30), (40, 30), (40, 10)],
        "every band carries its pixels until they are sent"
    );

    let ids: std::collections::HashSet<u32> = bands.iter().map(|b| b.id).collect();
    assert_eq!(ids.len(), 4, "each band needs an id of its own");
}

#[test]
fn a_short_page_is_one_band() {
    let (bands, _) = split(&image(40, 20), 30, 500, 0);
    assert_eq!(bands.len(), 1);
    assert_eq!((bands[0].y, bands[0].h), (0, 20));
}

#[test]
fn a_band_carries_its_own_rows() {
    let px: Vec<u8> = (0..48).collect();
    let fb = Framebuffer::from_raw(2, 6, px.clone()).unwrap();
    let (_, payloads) = split(&fb, 4, 500, 0);
    let mut rows = Vec::new();
    for e in &payloads {
        std::io::copy(&mut flate2::read::ZlibDecoder::new(&e.payload[..]), &mut rows).unwrap();
    }
    assert_eq!(rows, px);
}

#[test]
fn a_window_over_a_seam_places_both_bands() {
    // 400x4000 in bands of 1000, with the window on
    // 900..1380: the last 100px of one band and the first
    // 380 of the next
    let s = cut_up(400, 4000, 1000);
    let view = view(zoom(1, 1), 200, 1140);
    let bands = placed(&s, &view, (80, 25));

    assert_eq!(bands.len(), 2, "a seam needs both sides of it");

    assert_eq!(bands[0].id, 100);
    assert_eq!(bands[0].row, 0);
    assert_eq!(bands[0].p.src_y, 900);
    assert_eq!(bands[0].p.src_h, 100);
    assert_eq!(bands[0].p.rows, 5);

    assert_eq!(bands[1].id, 101);
    assert_eq!(bands[1].row, 5, "the second starts where the first ends");
    assert_eq!(bands[1].p.src_y, 0);
    assert_eq!(bands[1].p.src_h, 380);
    assert_eq!(bands[1].p.rows, 19);

    // and together they fill the window exactly
    let rows: u32 = bands.iter().map(|b| b.p.rows).sum();
    assert_eq!(rows, 24, "24 rows of viewport");
}

#[test]
fn a_window_inside_one_band_places_only_that_band() {
    let s = cut_up(400, 4000, 1000);
    let view = view(zoom(1, 1), 200, 1500);
    let bands = placed(&s, &view, (80, 25));
    assert_eq!(bands.len(), 1);
    assert_eq!(bands[0].id, 101, "the second band");
    assert_eq!(bands[0].row, 0);
}

#[test]
fn a_picture_is_still_placed_whole() {
    let s = shown(400, 300, Kind::Image);
    let view = Aim::reset(&s, (80, 25));
    let bands = placed(&s, &view, (80, 25));
    assert_eq!(bands.len(), 1);
    assert_eq!(bands[0].row, 0);
}

#[test]
fn a_document_window_snaps_to_a_row_boundary() {
    let s = document();
    let mut v = Aim::reset(&s, (80, 25));

    for offset in [1, 9, 11, 19, 33, 197] {
        v.cy = Aim::reset(&s, (80, 25)).cy + offset * UNIT;
        snap(&mut v, &s, (80, 25));
        let top = top_of(&s, &v);
        assert_eq!(
            top % (20 * UNIT),
            0,
            "offset {offset} left the window top at {top}"
        );
    }
}

#[test]
fn a_picture_is_left_where_it_was() {
    // an image has no rows to snap to
    let s = shown(400, 4000, Kind::Image);
    let mut v = Aim::reset(&s, (80, 25));
    let before = v.cy;
    snap(&mut v, &s, (80, 25));
    assert_eq!(v.cy, before);
}

#[test]
fn a_search_jump_lands_on_a_row_boundary() {
    let s = document();
    let ix = s.index.as_ref().unwrap();
    let mut v = Aim::reset(&s, (80, 25));
    for row in [20, 61, 100, 199] {
        scroll_to(&mut v, &s, ix, row, (80, 25));
        let top = top_of(&s, &v);
        assert_eq!(
            top % (20 * UNIT),
            0,
            "a jump to row {row} left the window top at {top}"
        );
    }
}

fn marked(s: &Shown, hits: &[Hit], at: usize) -> String {
    let v = Aim::reset(s, (80, 25));
    let mut out = String::new();
    mark(&mut out, s, &v, (80, 25), hits, at);
    out
}

#[test]
fn a_hit_in_view_is_underlined_at_its_own_cell() {
    // line 3 sits at y=60 with the window top at 0, so it
    // is the fourth row; column 5 is the sixth column
    let s = document();
    let hits = [Hit { line: 3, col: 5, cols: 4 }];
    let w = marked(&s, &hits, 0);
    assert!(w.contains("\x1b[4;6H"), "{w:?}");
    assert!(w.contains("\x1b[4m"), "underlined: {w:?}");
    assert!(w.contains("58;2;255;95;175"), "coloured underline: {w:?}");
    assert!(w.contains("    \x1b[0m"), "four cells wide: {w:?}");
}

#[test]
fn only_the_hit_you_are_on_takes_the_bright_colour() {
    let s = document();
    let hits = [
        Hit { line: 1, col: 0, cols: 2 },
        Hit { line: 2, col: 0, cols: 2 },
    ];
    let w = marked(&s, &hits, 1);
    assert_eq!(w.matches("58;2;255;95;175").count(), 1, "{w:?}");
    assert_eq!(w.matches("58;2;143;63;111").count(), 1, "{w:?}");
}

#[test]
fn nothing_but_spaces_is_ever_written_over_the_page() {
    // the page's own text stays visible underneath, and a
    // document cannot put characters on the terminal
    let mut s = document();
    s.index.as_mut().unwrap().lines[0].text = "a\x1b[2Jb".into();
    let hits = [Hit { line: 0, col: 0, cols: 5 }];
    let w = marked(&s, &hits, 0);
    assert!(!w.contains("\x1b[2J"), "{w:?}");

    let printable: String = w
        .split("\x1b")
        .skip(1)
        .filter_map(|p| p.split_once(|c: char| c.is_ascii_alphabetic()))
        .map(|(_, tail)| tail.to_owned())
        .collect();
    assert!(
        printable.chars().all(|c| c == ' '),
        "wrote {printable:?} as well as spaces"
    );
}

#[test]
fn a_heading_is_underlined_on_the_last_row_of_its_box() {
    // a two-row heading sits on the bottom of its box, so
    // underlining the first row would strike it through
    let mut s = document();
    s.index.as_mut().unwrap().lines[2].h = 2;
    let hits = [Hit { line: 2, col: 0, cols: 3 }];
    let w = marked(&s, &hits, 0);

    // line 2 starts at y=40, its box ends at y=80, so the
    // row to draw on starts at y=60: the fourth row
    assert!(w.contains("\x1b[4;1H"), "{w:?}");
}

#[test]
fn a_wide_heading_is_underlined_as_wide_as_it_is_drawn() {
    let mut s = document();
    s.index.as_mut().unwrap().lines[0].advance = 200;
    let w = marked(&s, &[Hit { line: 0, col: 2, cols: 3 }], 0);
    assert!(w.contains("\x1b[1;5H"), "{w:?}");
    assert!(w.contains("m      \x1b[0m"), "six cells wide: {w:?}");
}

#[test]
fn a_hit_below_the_window_is_not_written() {
    let s = document();
    let hits = [Hit { line: 190, col: 0, cols: 4 }];
    assert_eq!(marked(&s, &hits, 0), "");
}

#[test]
fn a_page_is_placed_under_the_text_layer_and_a_picture_is_not() {
    let doc = document();
    let v = Aim::reset(&doc, (80, 25));
    assert_eq!(placement(&doc, &v, (80, 25)).z, -1);

    let pic = shown(400, 4000, Kind::Image);
    let v = Aim::reset(&pic, (80, 25));
    assert_eq!(placement(&pic, &v, (80, 25)).z, 0);
}

#[test]
fn a_document_is_offered_no_zoom_and_the_keys_it_has() {
    let s = status_of(Kind::Document, "notes.md");
    assert!(!s.contains("zoom"), "{s}");
    assert!(!s.contains('%'), "a document is always drawn 1:1: {s}");
    assert!(s.contains("/ find"), "{s}");
    assert!(s.contains("head"), "{s}");
}

#[test]
fn a_picture_keeps_zoom_and_is_not_offered_the_document_keys() {
    let s = status_of(Kind::Image, "photo.png");
    assert!(s.contains("+- zoom"), "{s}");
    assert!(s.contains("100%"), "{s}");
    assert!(!s.contains("find"), "searching a picture means nothing: {s}");
}

#[test]
fn a_filename_cannot_write_escape_sequences_to_the_terminal() {
    // a name holding ESC is legal on disk, and reaches
    // here from a glob rather than from anything typed
    assert_eq!(drawn("evil\x1b[2Jname.md"), "evil[2Jname.md");
    assert_eq!(drawn("bel\x07and\x00nul"), "belandnul");

    // C1 CSI is a single byte and opens a sequence too
    assert_eq!(drawn("eight\u{9b}bit"), "eightbit");
}

#[test]
fn the_status_line_keeps_ordinary_text_and_the_width_limit() {
    assert_eq!(drawn("notes.md  [1/3]"), "notes.md  [1/3]");
    assert_eq!(drawn(&"x".repeat(200)).len(), 80);
}

#[test]
fn a_refused_image_is_reported_rather_than_skipped() {
    let refusal = b"\x1b_Gi=31;EINVAL:image too large\x1b\\";
    let got = graphics_error(refusal).expect("refusal was not noticed");
    assert!(got.contains("EINVAL"), "{got}");
    assert!(got.contains("too large"), "{got}");
}

#[test]
fn an_acknowledgement_is_not_an_error() {
    assert_eq!(graphics_error(b"\x1b_Gi=31,I=1;OK\x1b\\"), None);
    assert_eq!(graphics_error(b"hello"), None);

    // a half-arrived reply must not be read as a complaint either
    assert_eq!(graphics_error(b"\x1b_Gi=31;EINV"), None);
}

#[test]
fn a_refusal_behind_an_acknowledgement_is_found() {
    let both = b"\x1b_Gi=1;OK\x1b\\\x1b_Gi=2;ENOENT\x1b\\";
    assert_eq!(
        graphics_error(both).as_deref(),
        Some("terminal refused the image: ENOENT")
    );
}

#[test]
fn a_refusal_is_found_even_mixed_in_with_typing() {
    let mixed = b"j\x1b_Gi=7;ENOMEM\x1b\\k";
    assert!(graphics_error(mixed).is_some());
    assert_eq!(keys_from(mixed).len(), 2);
}

const SPINNER: [char; 10] = [
    '\u{280b}', '\u{2819}', '\u{2839}', '\u{2838}', '\u{283c}', '\u{2834}', '\u{2826}', '\u{2827}',
    '\u{2807}', '\u{280f}',
];

#[test]
fn the_spinner_cycles_and_never_leaves_the_frame_list() {
    assert_eq!(spinner_frame(0), SPINNER[0]);
    assert_eq!(spinner_frame(SPIN_TICK), SPINNER[1]);
    assert_eq!(spinner_frame(SPIN_TICK * SPINNER.len() as u64), SPINNER[0]);
    assert_eq!(spinner_frame(3_600_000), SPINNER[0]);
    for (i, glyph) in SPINNER.iter().enumerate() {
        assert_eq!(spinner_frame(SPIN_TICK * i as u64), *glyph);
    }
}

#[test]
fn nothing_is_said_about_a_wait_too_short_to_notice() {
    // long enough to sit out a decode that finishes in a
    // frame or two, short enough to announce a slow one
    assert!(PATIENCE >= SPIN_TICK);
    assert!(PATIENCE < 500);
}

#[test]
fn a_wait_says_how_long_it_has_been() {
    assert_eq!(
        spinner_text("a.md", 1, 3, 1260),
        "\u{2834} rendering a.md  [2/3]  1.3s  q quits"
    );
}

#[test]
fn a_capped_picture_covers_the_cells_it_would_have_uncapped() {
    let full = shown(1600, 900, Kind::Image);
    let mut capped = shown(800, 450, Kind::Image);
    capped.num = 2;
    let at = |s: &Shown| {
        let v = Aim::reset(s, (80, 25));
        let p = placement(s, &v, (80, 25));
        (p.cols, p.rows)
    };
    assert_eq!(at(&capped), at(&full));
}

#[test]
fn a_document_is_fitted_on_width_and_scrolls() {
    // an image is fitted on both axes and has nowhere to
    // pan at rest; a page fitted that way is unreadable
    let v = view(zoom(1, 1), 450, 200);

    let doc = placement(&shown(900, 6000, Kind::Document), &v, (100, 30));
    assert!(
        doc.src_h < 6000,
        "a document showed its whole height at rest, so there is no scroll"
    );

    let pic = placement(&shown(900, 6000, Kind::Image), &v, (100, 30));
    assert_eq!(pic.src_h, 6000, "a picture should still be fitted whole");
    assert!(
        doc.src_h < pic.src_h,
        "the document should show less at once than the fitted picture"
    );
}

#[test]
fn a_document_opens_at_its_first_line() {
    let s = shown(900, 6000, Kind::Document);
    let v = Aim::reset(&s, (100, 30));
    let p = placement(&s, &v, (100, 30));
    assert_eq!(p.src_y, 0, "document did not open at the top");
}

#[test]
fn unzoomed_shows_the_whole_image() {
    let p = placement(&shown(1000, 500, Kind::Image), &view(zoom(1, 1), 500, 250), (80, 25));
    assert_eq!((p.src_x, p.src_y), (0, 0));
    assert_eq!((p.src_w, p.src_h), (1000, 500));
}

#[test]
fn zooming_in_shrinks_the_source_rectangle() {
    let s = shown(1000, 500, Kind::Image);
    let wide = placement(&s, &view(zoom(1, 1), 500, 250), (80, 25));
    let close = placement(&s, &view(zoom(2, 1), 500, 250), (80, 25));
    assert!(close.src_w < wide.src_w && close.src_h < wide.src_h);
    // the axis that was already filling the viewport
    // halves exactly; the letterboxed axis shows less
    // than half, because zooming first removes the bars
    assert_eq!(close.src_w, wide.src_w / 2);
    assert!(close.src_h > wide.src_h / 2);
}

#[test]
fn the_source_rectangle_keeps_the_display_box_aspect_ratio() {
    let s = shown(1000, 500, Kind::Image);
    for z in [zoom(1, 1), zoom(3, 2), zoom(2, 1), zoom(8, 1)] {
        let p = placement(&s, &view(z, 500, 250), (80, 25));
        let src = p.src_w as f64 / p.src_h as f64;
        let dst = (f64::from(p.cols) * 10.0) / (f64::from(p.rows) * 20.0);
        assert!(
            (src - dst).abs() < 0.12,
            "zoom {z:?}: source {src:.3} vs box {dst:.3}"
        );
    }
}

#[test]
fn the_cell_box_never_exceeds_the_viewport() {
    let s = shown(4000, 3000, Kind::Image);
    for z in [1, 2, 8, 32] {
        let p = placement(&s, &view(zoom(z, 1), 2000, 1500), (80, 25));
        assert!(p.cols <= 80, "cols {} at zoom {z}", p.cols);
        // one row is held back for the status line
        assert!(p.rows <= 24, "rows {} at zoom {z}", p.rows);
    }
}

#[test]
fn panning_past_an_edge_clamps_inside_the_image() {
    let s = shown(1000, 500, Kind::Image);
    let p = placement(&s, &view(zoom(4, 1), -9000, -9000), (80, 25));
    assert_eq!((p.src_x, p.src_y), (0, 0));

    let q = placement(&s, &view(zoom(4, 1), 9000, 9000), (80, 25));
    assert_eq!(q.src_x + q.src_w, 1000);
    assert_eq!(q.src_y + q.src_h, 500);
}

#[test]
fn a_small_image_is_not_enlarged_at_rest() {
    let p = placement(&shown(40, 30, Kind::Image), &view(zoom(1, 1), 20, 15), (80, 25));
    assert_eq!((p.src_w, p.src_h), (40, 30));
    assert_eq!((p.cols, p.rows), (4, 2));
}

#[test]
fn zoom_goes_up_by_a_quarter_and_stays_in_range() {
    let mut z = zoom(1, 1);
    assert_eq!(zoom_by(z, -1), zoom(1, 1));
    z = zoom_by(z, 1);
    assert_eq!(z, zoom(5, 4));
    assert_eq!(zoom_by(z, -1), zoom(1, 1));
    for _ in 0..14 {
        z = zoom_by(z, 1);
    }
    assert_eq!(z, zoom(5u64.pow(15), 4u64.pow(15)));
    z = zoom_by(z, 1);
    assert_eq!(z, zoom(32, 1));
    assert_eq!(zoom_by(z, -1), zoom(128, 5));
    for _ in 0..16 {
        z = zoom_by(z, -1);
    }
    assert_eq!(z, zoom(1, 1));
}

#[test]
fn graphics_acknowledgements_are_not_read_as_keys() {
    let keys = keys_from(b"\x1b_Gi=31,I=1;OK\x1b\\");
    assert!(keys.is_empty());

    let mixed = keys_from(b"\x1b_Gi=31;OK\x1b\\q");
    assert!(matches!(mixed.as_slice(), [Key::Quit]));
}

#[test]
fn arrow_keys_pan_and_modifiers_are_swallowed_whole() {
    assert!(matches!(
        keys_from(b"\x1b[A").as_slice(),
        [Key::Pan(0, y)] if *y < 0
    ));
    // a modified arrow carries parameters before the final byte; the
    // parser must not mistake those digits for commands
    assert!(matches!(
        keys_from(b"\x1b[1;5C").as_slice(),
        [Key::Pan(x, 0)] if *x > 0
    ));
}

#[test]
fn the_keys_are_the_ones_vim_uses() {
    let keys = |b: &[u8]| decode_keys(b).0;

    assert!(matches!(keys(b"n").as_slice(), [Key::Hit(1)]));
    assert!(matches!(keys(b"N").as_slice(), [Key::Hit(-1)]));
    assert!(matches!(keys(b"/").as_slice(), [Key::Search(1)]));
    assert!(matches!(keys(b"?").as_slice(), [Key::Search(-1)]));
    assert!(matches!(keys(b"}").as_slice(), [Key::Heading(1)]));
    assert!(matches!(keys(b"{").as_slice(), [Key::Heading(-1)]));
    assert!(matches!(keys(b"G").as_slice(), [Key::Bottom]));

    // tab and shift-tab, the latter arriving as CSI Z
    assert!(matches!(keys(b"\t").as_slice(), [Key::Next]));
    assert!(matches!(keys(b"\x1b[Z").as_slice(), [Key::Prev]));
}

#[test]
fn every_other_key_has_its_meaning() {
    let want = vec![
        Key::Pan(-1, 0),
        Key::Pan(1, 0),
        Key::Pan(0, -1),
        Key::Pan(0, 1),
        Key::Zoom(1),
        Key::Zoom(1),
        Key::Zoom(-1),
        Key::Zoom(-1),
        Key::Reset,
        Key::Quit,
        Key::Quit,
        Key::Pan(0, 1),
        Key::Pan(-1, 0),
    ];
    assert_eq!(decode_keys(b"hlkj+=-_0q\x03\x1b[B\x1b[D").0, want);
}

#[test]
fn vims_gg_lands_on_the_top_like_one_g_does() {
    // g alone is the binding, so the second g of a habit
    // jumps to a top it is already at
    assert!(matches!(
        decode_keys(b"gg").0.as_slice(),
        [Key::Top, Key::Top]
    ));
}

#[test]
fn the_keys_that_moved_mean_nothing_now() {
    // p, space and the brackets were file and hit keys
    for gone in [&b"p"[..], b" ", b"]", b"["] {
        assert!(
            decode_keys(gone).0.is_empty(),
            "{:?} still does something",
            gone
        );
    }
}

#[test]
fn a_search_starts_from_where_the_reader_is() {
    // / from the middle of a page finds the next match
    // below the window, not the first one in the document
    let s = document();
    let hits: Vec<Hit> = [4usize, 40, 120]
        .iter()
        .map(|&line| Hit { line, col: 0, cols: 1 })
        .collect();

    let mut v = Aim::reset(&s, (80, 25));
    scroll_to(&mut v, &s, s.index.as_ref().unwrap(), 35, (80, 25));

    // the window top is at y=540, so forwards is the
    // match on line 40 and backwards the one on line 4
    assert_eq!(top_of(&s, &v), 540 * UNIT);
    assert_eq!(first_hit(&s, &v, &hits, 1, (80, 25)), 1);
    assert_eq!(first_hit(&s, &v, &hits, -1, (80, 25)), 0);
}

#[test]
fn a_lone_escape_quits() {
    assert!(matches!(keys_from(b"\x1b").as_slice(), [Key::Quit]));
}

#[test]
fn an_arrow_key_split_by_the_network_is_not_a_quit() {
    // the first half of an arrow key that ssh delivered
    // in two reads
    let (keys, used) = decode_keys(b"\x1b");
    assert!(keys.is_empty());
    assert_eq!(used, 0, "the escape has to survive for the next read");
    assert!(unfinished(b"\x1b") && !unfinished(b"\x1b[A"));

    assert!(matches!(
        keys_from(b"\x1b[A").as_slice(),
        [Key::Pan(0, y)] if *y < 0
    ));
}

#[test]
fn a_key_before_a_split_sequence_still_registers() {
    // a burst cut mid sequence must not cost the keys ahead of the cut
    let (keys, used) = decode_keys(b"n\x1b[");
    assert!(matches!(keys.as_slice(), [Key::Hit(1)]));
    assert_eq!(used, 1);
}

#[test]
fn a_page_pans_by_whole_rows_and_stops_at_its_ends() {
    let s = document();
    let mut v = Aim::reset(&s, (80, 25));
    pan(&mut v, &s, 0, 1, (80, 25));

    // a fifth of 480 is 96, which is five rows of 20 to the nearest
    assert_eq!(top_of(&s, &v), 100 * UNIT);
    pan(&mut v, &s, 0, -9, (80, 25));
    assert_eq!(top_of(&s, &v), 0);
    go_to_end(&mut v, &s, false, (80, 25));
    assert_eq!(top_of(&s, &v), 3520 * UNIT);
    go_to_end(&mut v, &s, true, (80, 25));
    assert_eq!(top_of(&s, &v), 0);
}

#[test]
fn a_step_says_where_it_is_and_what_it_found() {
    let mut s = document();
    s.index.as_mut().unwrap().lines[40].text = "  here it is ".into();
    let page = Some(s);
    let hits = [Hit { line: 4, col: 0, cols: 1 }, Hit { line: 40, col: 0, cols: 1 }];
    let mut v = Aim::reset(page.as_ref().unwrap(), (80, 25));
    assert_eq!(step(&mut v, &page, &hits, 1, "it", (80, 25)), "/it  2/2  here it is");
    assert_eq!(top_of(page.as_ref().unwrap(), &v), 640 * UNIT);
    assert_eq!(step(&mut v, &page, &[], 0, "it", (80, 25)), "/it  no matches");
    assert_eq!(step(&mut v, &None, &hits, 0, "it", (80, 25)), "/it  nothing loaded");
    let picture = Some(shown(40, 30, Kind::Image));
    assert_eq!(step(&mut v, &picture, &[], 0, "it", (80, 25)), "/it  not a document");
}

#[test]
fn headings_are_stepped_from_the_top_of_the_window() {
    let mut s = document();
    s.index.as_mut().unwrap().outline = vec![
        Heading { level: 1, text: "One".into(), y: 1 },
        Heading { level: 2, text: " Two ".into(), y: 60 },
    ];
    let page = Some(s);
    let mut v = Aim::reset(page.as_ref().unwrap(), (80, 25));
    assert_eq!(heading(&mut v, &page, 1, (80, 25)), "# One");
    go_to_end(&mut v, page.as_ref().unwrap(), false, (80, 25));
    assert_eq!(heading(&mut v, &page, 1, (80, 25)), "no more headings");
    assert_eq!(heading(&mut v, &page, -1, (80, 25)), "## Two");
    assert_eq!(heading(&mut v, &None, 1, (80, 25)), "nothing loaded");
    let picture = Some(shown(40, 30, Kind::Image));
    assert_eq!(heading(&mut v, &picture, 1, (80, 25)), "not a document");
}

#[test]
fn a_step_goes_on_from_the_heading_it_reached() {
    let mut s = document();
    s.index.as_mut().unwrap().outline = vec![
        Heading { level: 1, text: "a".into(), y: 50 },
        Heading { level: 1, text: "b".into(), y: 100 },
        Heading { level: 1, text: "c".into(), y: 199 },
    ];
    let page = Some(s);
    let mut v = Aim::reset(page.as_ref().unwrap(), (80, 25));
    assert_eq!(heading(&mut v, &page, 1, (80, 25)), "# a");
    assert_eq!(heading(&mut v, &page, 1, (80, 25)), "# b");
    assert_eq!(heading(&mut v, &page, 1, (80, 25)), "# c");
    assert_eq!(heading(&mut v, &page, 1, (80, 25)), "no more headings");
    assert_eq!(heading(&mut v, &page, -1, (80, 25)), "# b");
    assert_eq!(heading(&mut v, &page, -1, (80, 25)), "# a");
    assert_eq!(heading(&mut v, &page, -1, (80, 25)), "no more headings");

    // elsewhere it is the top of the window that counts
    go_to_end(&mut v, page.as_ref().unwrap(), true, (80, 25));
    assert_eq!(heading(&mut v, &page, 1, (80, 25)), "# a");
}

#[test]
fn a_pan_sideways_keeps_the_row() {
    let s = document();
    let mut v = Aim::reset(&s, (80, 25));
    pan(&mut v, &s, 0, 1, (80, 25));
    let before = top_of(&s, &v);
    pan(&mut v, &s, 1, 0, (80, 25));
    assert_eq!(top_of(&s, &v), before);
}

#[test]
fn scrolling_places_and_sends_nothing() {
    let mut v = reading();
    for keys in [&b"j"[..], b"G", b"/line 9\r", b"}", b"g"] {
        assert!(!v.input(keys));
        let mut out = String::new();
        v.redraw(&mut out);
        assert!(out.contains("\x1b_Ga=p,"), "{out:?}");
        assert!(!out.contains("a=t") && !out.contains("a=T") && !out.contains("f=32"), "{out:?}");
        let mut rest = out.as_str();
        while let Some(at) = rest.find("\x1b_G") {
            rest = &rest[at..];
            let (head, payload) = rest.split_once(';').expect("a header ends");
            assert!(!head.contains('\\'), "{head:?}");
            assert!(payload.starts_with("\x1b\\"), "{out:?}");
            rest = payload;
        }
    }
}

#[test]
fn a_picture_is_decoded_with_room_to_zoom_and_a_page_whole() {
    let h = hints(Kind::Image, (80, 25), CELL, 1_048_576);
    assert_eq!((h.max_w, h.max_h), (1600, 1000));
    let h = hints(Kind::Document, (80, 25), CELL, 1_048_576);
    assert_eq!((h.max_w, h.max_h), (800, u32::MAX));
}

#[test]
fn a_picture_over_the_cap_is_shrunk_once() {
    let h = hints(Kind::Image, (80, 25), CELL, 1_048_576);
    let of = |w, h, num, den| Reduced { w, h, num, den };
    let one = (1, 1);
    assert_eq!(reduced(Kind::Image, 500, 400, one, &h), of(500, 400, 1, 1));
    assert_eq!(reduced(Kind::Image, 3200, 800, one, &h), of(1600, 400, 1, 1));

    // fitted to 1600 across, and then within the cap
    let h = hints(Kind::Image, (80, 25), CELL, 160_000);
    assert_eq!(reduced(Kind::Image, 3200, 800, one, &h), of(800, 200, 131_072, 65_536));

    // what was drawn under the cap stays as it was drawn
    assert_eq!(reduced(Kind::Image, 800, 200, (2, 1), &h), of(800, 200, 2, 1));

    // a document is drawn at the size it is sent at
    let d = hints(Kind::Document, (80, 25), CELL, 160_000);
    assert_eq!(reduced(Kind::Document, 400, 9000, (20, 10), &d), of(400, 9000, 20, 10));
}

fn fresh(kind: Kind, w: u32, h: u32) -> (Shown, Vec<Encoded>) {
    ready(image(w, h), None, (1, 1), kind, (80, 25), CELL, 1_048_576, [0, 0, 0], 700, 0).unwrap()
}

#[test]
fn a_source_is_made_ready_in_bands() {
    let (s, payloads) = fresh(Kind::Image, 40, 30);
    assert_eq!((s.w, s.h, s.num, s.den), (40, 30, 1, 1));
    assert_eq!(s.bands, vec![Band { y: 0, h: 30, id: 700 }]);
    let mut px = Vec::new();
    std::io::copy(&mut flate2::read::ZlibDecoder::new(&payloads[0].payload[..]), &mut px).unwrap();
    assert!(px.chunks(4).all(|p| p == [0, 0, 0, 255]), "composited over black");

    let r = Reduced { w: 1, h: 2, num: 1, den: 1 };
    let (s, payloads) = banded(image(1, 2), r, None, Kind::Document, CELL, [1, 2, 3], 9, 0);
    assert!(is_document(&Some(s)));
    assert_eq!((payloads[0].w, payloads[0].h), (1, 2));
}

#[test]
fn a_picture_capped_by_no_whole_factor_covers_the_same_cells() {
    let cells = (200, 60);
    let at = |max_px| {
        let fb = image(1920, 1080);
        let made = ready(fb, None, (1, 1), Kind::Image, cells, CELL, max_px, [0, 0, 0], 1, 0);
        let (s, _) = made.unwrap();
        let p = placement(&s, &Aim::reset(&s, cells), cells);
        ((s.w, s.h), (p.cols, p.rows))
    };
    assert_eq!(at(u64::MAX), ((1920, 1080), (192, 54)));
    assert_eq!(at(1_048_576), ((1365, 768), (192, 54)));
}

fn viewer() -> Viewer {
    Viewer::new(vec!["a.md".into(), "b.png".into()], (80, 25))
}

/// A viewer with a page of numbered lines on screen.
fn reading() -> Viewer {
    let mut v = viewer();
    assert_eq!(v.wanted(), Some(0));
    let mut out = String::new();
    let s = document();
    let payloads = vec![Encoded { w: 400, h: 4000, payload: vec![1] }];
    v.loaded(&mut out, s, payloads);
    v
}

#[test]
fn a_viewer_starts_by_loading_its_first_file() {
    let mut v = viewer();
    assert!(v.load && v.dirty);
    assert_eq!(v.wanted(), Some(0));
    assert_eq!(v.wanted(), None);
    assert!(!v.input(b"\t"));
    assert_eq!(v.wanted(), Some(1));
    assert!(!v.input(b"\t"));
    assert_eq!(v.wanted(), None, "there is no third file");
    assert!(!v.input(b"\x1b[Z"));
    assert_eq!(v.wanted(), Some(0));
}

#[test]
fn a_fresh_page_is_placed_before_the_old_one_is_dropped() {
    let mut v = reading();
    let mut out = String::new();
    let mut s = shown(40, 30, Kind::Image);
    s.bands[0].id = 2;
    v.loaded(&mut out, s, vec![Encoded { w: 40, h: 30, payload: vec![1] }]);
    let sent = out.find("\x1b_Ga=t,i=2,q=1,").expect("sent");
    let put = out.find("\x1b_Ga=p,i=2,").expect("placed");
    let gone = out.find("\x1b_Ga=d,d=I,i=1,").expect("dropped");
    assert!(sent < put && put < gone, "{out:?}");
    assert!(!v.dirty);
}

#[test]
fn a_failure_is_said_and_drops_what_was_shown() {
    let mut v = reading();
    let mut out = String::new();
    v.failed(&mut out, "no such file".into());
    assert_eq!(out, "\x1b_Ga=d,d=I,i=1,q=2;\x1b\\");
    assert!(v.shown.is_none());
    let mut screen = String::new();
    v.redraw(&mut screen);
    assert!(screen.ends_with("\x1b[25;1H\x1b[Ka.md  no such file"), "{screen:?}");
    v.lost();
    assert_eq!(v.failure.as_deref(), Some("decode failed"));
    let mut nothing = String::new();
    forget_all(&mut nothing, &None);
    assert_eq!(nothing, "");
}

#[test]
fn a_search_is_typed_run_and_stepped() {
    let mut v = reading();
    assert!(!v.input(b"/"));
    assert!(!v.input(b"line 12"));
    let mut screen = String::new();
    v.redraw(&mut screen);
    assert!(screen.ends_with("a.md  /line 12"), "{screen:?}");

    // return ends the search, and the key behind it is a key
    assert!(!v.input(b"\rn"));
    assert_eq!(v.query, "line 12");
    let lines: Vec<usize> = v.hits.iter().map(|h| h.line).collect();
    assert_eq!(lines[..3], [12, 120, 121]);
    assert_eq!(v.hit, 1);
    assert_eq!(v.note.as_deref(), Some("/line 12  2/11  line 120"));
    assert!(!v.input(b"N"));
    assert_eq!(v.hit, 0);
    assert!(!v.input(b"N"));
    assert_eq!(v.hit, 10, "from the first hit back to the last");
}

#[test]
fn a_cancelled_search_leaves_no_trace() {
    let mut v = reading();
    assert!(!v.input(b"/"));
    assert!(!v.input(b"line\x1b"));
    assert_eq!((v.typing.is_none(), v.note.is_none()), (true, true));
    assert!(v.hits.is_empty());
    assert!(v.input(b"q"));
}

#[test]
fn a_refusal_of_the_terminal_reaches_the_status_line() {
    let mut v = reading();
    assert!(!v.input(b"\x1b_Gi=1;ENOENT\x1b\\j"));
    assert_eq!(v.failure.as_deref(), Some("terminal refused the image: ENOENT"));
    assert_eq!(top_of(v.shown.as_ref().unwrap(), &v.aim), 100 * UNIT);
}

#[test]
fn only_a_picture_zooms() {
    let mut v = reading();
    assert!(!v.input(b"+"));
    assert_eq!(v.aim.zoom, zoom(1, 1));
    let mut out = String::new();
    let (s, payloads) = fresh(Kind::Image, 40, 30);
    v.loaded(&mut out, s, payloads);
    assert!(!v.input(b"+"));
    assert_eq!(v.aim.zoom, zoom(5, 4));
    assert!(!v.input(b"0"));
    assert_eq!(v.aim.zoom, zoom(1, 1));
}

#[test]
fn a_resize_is_drawn_and_the_same_size_is_not() {
    let mut v = reading();
    v.resized((80, 25));
    assert!(!v.dirty);
    v.resized((80, 30));
    assert!(v.dirty);
    assert_eq!(v.cells, (80, 30));
}

#[test]
fn a_wait_is_shown_once_it_is_long() {
    let v = viewer();
    let mut out = String::new();
    assert_eq!(v.wait(&mut out, None), TICK);
    assert_eq!(v.wait(&mut out, Some(PATIENCE - 1)), SPIN_TICK);
    assert_eq!(out, "");
    assert_eq!(v.wait(&mut out, Some(PATIENCE)), SPIN_TICK);
    assert!(out.contains("rendering a.md  [1/2]  0.1s"), "{out:?}");
}
