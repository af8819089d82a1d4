use gat::geometry::CellSize;
use gat::source::markdown::emit::{type_at, ASCENT, DESCENT, TICKS};
use gat::source::markdown::highlight::{spans, Highlighter};
use gat::source::markdown::layout::{
    fold, heading_scale, layout, rows_of, Item, Page, Rgb, Setting, Theme,
};
use gat::source::markdown::measure::{
    column_widths, expand_tabs, flatten, natural_width, TABLE_GAP,
};
use gat::source::markdown::page::{frame, metrics};
use gat::source::markdown::parse::{parse, Align, Inline, Style, Table};
use gat::source::markdown::wrap::{hard_split, wrap};

const CELL: CellSize = CellSize { w: 10, h: 20 };

fn cell(text: &str) -> Vec<Inline> {
    vec![Inline::Text {
        text: text.into(),
        style: Style::default(),
    }]
}

fn page_at(md: &str, width: u32) -> Page {
    let setting = Setting {
        frame: frame(&metrics(CELL, width)),
        theme: Theme::dark(),
    };
    layout(&parse(md), &setting, &Highlighter::new())
}

fn page_of(md: &str) -> Page {
    page_at(md, 600)
}

#[test]
fn every_line_lands_on_the_row_grid() {
    // the viewer addresses a line by its terminal row, so
    // one line box that is not a whole number of rows puts
    // every line below it between two cells
    let page = page_of(
        "# One\n\n## Two\n\n### Three\n\n#### Four\n\n##### Five\n\n\
         body text that is long enough to wrap onto a second line somewhere\n\n\
         - a\n- b\n  - nested\n\n1. first\n2. second\n\n\
         ```\ncode\nmore code\n```\n\n---\n\n> quote\n\n> [!NOTE]\n> callout\n\n\
         | a | b |\n|---|---|\n| 1 | 2 |\n\ntail[^n]\n\n[^n]: note\n",
    );
    assert!(
        page.lines.len() >= 20,
        "expected a full page, got {}",
        page.lines.len()
    );

    // rows are whole by their type; what is left to hold is
    // that each line begins below the one before
    for two in page.lines.windows(2) {
        assert!(two[0].y < two[1].y, "{two:?}");
    }
    let last = page.lines.last().unwrap();
    assert!(last.y + last.h <= page.rows, "page is {} rows tall", page.rows);
}

#[test]
fn the_page_starts_on_a_row_and_on_a_column() {
    // the margins round up in both directions, so the
    // first thing drawn is already on the grid
    let page = page_of("body text\n");
    let Item::Run { x, top, .. } = &page.items[0] else {
        panic!("expected a run, got {:?}", page.items[0]);
    };
    assert_eq!(x % 100, 0, "starts at {x} hundredths of a column");
    assert_eq!((*x, *top), (200, 1));
}

#[test]
fn the_ink_of_a_line_sits_inside_its_box() {
    // moved down so an underline lands under the word,
    // but not so far that a descender reaches the row below
    let m = metrics(CELL, 600);
    for scale in [100, 115, 160, 200] {
        let (size, b) = type_at(&m, 0, scale);
        let box_h = rows_of(scale) as u128 * 20 * TICKS;
        assert!(b * 2048 >= size * ASCENT, "scale {scale} clips the ascent");
        assert!(
            b * 2048 + size * DESCENT <= box_h * 2048,
            "scale {scale} drops a descender into the next row"
        );
    }
}

#[test]
fn a_box_too_tight_for_the_ink_keeps_the_ascent() {
    // a cell shorter than the ink cannot hold both ends,
    // and losing the top of the letters is the worse half
    let m = metrics(CellSize { w: 20, h: 11 }, 600);
    let (size, b) = type_at(&m, 0, 100);
    assert_eq!(size, 11 * TICKS);
    assert_eq!(b * 2048, size * ASCENT);
}

#[test]
fn a_heading_takes_whole_rows_however_large_its_type() {
    for (level, scale, rows) in [(1, 200, 2), (2, 160, 2), (3, 130, 2), (4, 115, 2), (5, 100, 1), (6, 100, 1)] {
        assert_eq!(heading_scale(level), scale);
        let n = rows_of(scale);
        assert_eq!(n, rows, "scale {scale} gave {n} rows");
        assert!(n * 100 >= scale, "scale {scale} must fit in {n} rows");
    }
}

#[test]
fn the_index_recovers_the_page_line_by_line() {
    let page = page_of("# Title\n\nsome words here\n");
    let text: Vec<&str> = page.lines.iter().map(|l| l.text.as_str()).collect();
    assert_eq!(text, vec!["Title", "some words here"]);

    // the lines come back in the order they are drawn
    assert!(page.lines[0].y < page.lines[1].y);
}

#[test]
fn the_outline_holds_every_heading_with_its_level() {
    let page = page_of("# One\n\ntext\n\n### Three\n");
    let seen: Vec<(u8, &str)> = page
        .outline
        .iter()
        .map(|h| (h.level, h.text.as_str()))
        .collect();
    assert_eq!(seen, vec![(1, "One"), (3, "Three")]);
}

#[test]
fn a_line_reads_back_at_the_columns_it_was_drawn_at() {
    // a gap pads to the columns it spans, so the nth
    // character of the text is the nth column of the page
    // and a match lands where the word is
    let page = page_of("| ab | cd |\n|----|----|\n| ef | gh |\n");
    let text: Vec<&str> = page.lines.iter().map(|l| l.text.as_str()).collect();
    assert_eq!(text, vec!["ab  cd", "ef  gh"], "TABLE_GAP is two columns");
    assert_eq!(TABLE_GAP, 2);
}

#[test]
fn every_line_starts_on_a_column() {
    // the same grid sideways: a hit is underlined in
    // cells, so a line that starts a third of a character
    // in is underlined a third of a character out
    let page = page_of(
        "# One\n\nbody text\n\n- a\n\n1. b\n\n```\ncode\n```\n\n\
         > quote\n\n| a | b |\n|---|---|\n| 1 | 2 |\n\ntail[^n]\n\n[^n]: note\n",
    );
    for line in &page.lines {
        assert_eq!(
            line.x % 100,
            0,
            "{:?} starts at {} hundredths of a column",
            line.text,
            line.x
        );
    }
}

#[test]
fn a_headings_box_is_taller_than_a_body_line() {
    // the viewer underlines the last row a box covers, so
    // the box has to say how many rows that is
    let page = page_of("# Title\n\nbody\n");
    assert_eq!(page.lines[0].h, 2, "a heading box is not two rows");
    assert_eq!(page.lines[1].h, 1, "a body box is not one row");
}

#[test]
fn a_wrapped_paragraph_yields_one_index_line_per_drawn_line() {
    let page = page_of(&"word ".repeat(200));
    assert!(page.lines.len() > 1);
    assert!(page.lines.iter().all(|l| l.text.starts_with("word")));
}

#[test]
fn a_table_that_fits_keeps_every_column_at_its_natural_width() {
    let t = Table {
        align: vec![Align::Left; 2],
        head: vec![cell("key"), cell("value")],
        rows: vec![vec![cell("a"), cell("bb")]],
    };
    assert_eq!(column_widths(&t, 2, 80), vec![3, 5]);
}

#[test]
fn a_table_too_wide_shrinks_its_widest_column_first() {
    // 6 + 2 gap + 40 is 48, so eight characters have to
    // come off, and all of them off the prose column
    let t = Table {
        align: vec![Align::Left; 2],
        head: vec![cell("symbol"), cell(&"x".repeat(40))],
        rows: vec![],
    };
    assert_eq!(column_widths(&t, 2, 40), vec![6, 32]);
}

#[test]
fn a_table_far_too_narrow_stops_at_one_character_a_column() {
    let t = Table {
        align: vec![Align::Left; 3],
        head: vec![cell("aaaa"), cell("bbbb"), cell("cccc")],
        rows: vec![],
    };
    assert_eq!(column_widths(&t, 3, 4), vec![1, 1, 1]);
}

#[test]
fn a_cells_natural_width_counts_the_spaces_between_its_words() {
    assert_eq!(natural_width(&cell("one two")), 7);
    assert_eq!(natural_width(&cell("")), 0);
}

#[test]
fn a_cells_natural_width_is_the_least_it_is_not_wrapped_at() {
    for text in ["one two", "a", "a lengthy word here", "世界 wide", "supercalifragilistic"] {
        let c = cell(text);
        let n = natural_width(&c);
        for cols in 2..=n + 3 {
            let lines = wrap(&c, cols, Style::default());
            assert_eq!(n <= cols, lines.len() <= 1, "{text:?} at {cols}");
            if lines.len() == 1 {
                let p = lines[0].last().unwrap();
                assert_eq!(p.col + natural_width(&cell(&p.text)), n, "{text:?} at {cols}");
            }
        }
    }
    assert!(wrap(&cell(""), 2, Style::default()).is_empty());
}

fn lines_in(inlines: &Vec<Inline>, cols: usize) -> Vec<String> {
    wrap(inlines, cols, Style::default())
        .iter()
        .map(|line| {
            line.iter()
                .map(|p| p.text.as_str())
                .collect::<Vec<_>>()
                .join("")
        })
        .collect()
}

#[test]
fn wrapping_breaks_at_the_column_and_not_before() {
    // "aaa bbb ccc" is 11 columns; at 7 it takes two lines, at 11 one
    let t = cell("aaa bbb ccc");
    assert_eq!(lines_in(&t, 11), vec!["aaa bbb ccc"]);
    assert_eq!(lines_in(&t, 7), vec!["aaa bbb", "ccc"]);
    assert_eq!(lines_in(&t, 3), vec!["aaa", "bbb", "ccc"]);
}

#[test]
fn a_line_never_starts_with_the_space_it_broke_on() {
    let t = cell("aaa bbb");
    let wrapped = wrap(&t, 3, Style::default());
    assert_eq!(wrapped[1][0].col, 0, "second line was indented by a space");
    assert_eq!(wrapped[1][0].text, "bbb");
}

#[test]
fn a_word_longer_than_the_line_is_split_rather_than_lost() {
    assert_eq!(lines_in(&cell("abcdefghij"), 4), vec!["abcd", "efgh", "ij"]);
    assert_eq!(hard_split("abcdefghij", 4), vec!["abcd", "efgh", "ij"]);
}

#[test]
fn east_asian_text_counts_two_columns_per_character() {
    // the whole column model is display width, not chars: four CJK
    // characters fill eight columns, so they wrap at four per line
    assert_eq!(lines_in(&cell("世界世界"), 8), vec!["世界世界"]);
    assert_eq!(lines_in(&cell("世界世界"), 4), vec!["世界", "世界"]);
}

#[test]
fn a_style_change_starts_a_new_run_but_matching_styles_merge() {
    let inlines = vec![
        Inline::Text {
            text: "plain ".into(),
            style: Style::default(),
        },
        Inline::Text {
            text: "loud".into(),
            style: Style {
                bold: true,
                ..Style::default()
            },
        },
        Inline::Text {
            text: " plain again".into(),
            style: Style::default(),
        },
    ];
    let line = &wrap(&inlines, 40, Style::default())[0];
    assert_eq!(line.len(), 3, "runs did not split on style: {line:?}");
    assert_eq!(line[0].col, 0);
    assert_eq!(line[1].text, "loud");
    assert_eq!(line[1].col, 6);
    assert_eq!(line[2].text, "plain again");
}

#[test]
fn punctuation_after_emphasis_does_not_gain_a_space() {
    // markdown hands "**bold**, then" over as two runs, the
    // second starting with the comma; spacing them apart is
    // the bug guarded here
    let inlines = vec![
        Inline::Text {
            text: "bold".into(),
            style: Style {
                bold: true,
                ..Style::default()
            },
        },
        Inline::Text {
            text: ", then".into(),
            style: Style::default(),
        },
    ];
    let line = &wrap(&inlines, 40, Style::default())[0];
    assert_eq!(line[0].col, 0);
    assert_eq!(line[1].text, ", then");
    assert_eq!(line[1].col, 4, "comma was pushed off the word it follows");
}

#[test]
fn a_space_between_runs_is_still_honoured() {
    let inlines = vec![
        Inline::Text {
            text: "bold".into(),
            style: Style {
                bold: true,
                ..Style::default()
            },
        },
        Inline::Text {
            text: " and more".into(),
            style: Style::default(),
        },
    ];
    let line = &wrap(&inlines, 40, Style::default())[0];
    assert_eq!(line[1].text, "and more");
    assert_eq!(line[1].col, 5, "the real space between runs was dropped");
}

#[test]
fn tabs_expand_to_the_next_stop_of_four() {
    assert_eq!(expand_tabs("a\tb"), "a   b");
    assert_eq!(expand_tabs("abcd\te"), "abcd    e");
    assert_eq!(expand_tabs("\tx"), "    x");
    assert_eq!(expand_tabs("世\tx"), "世  x");
}

#[test]
fn a_heading_is_taller_than_body_text() {
    let page = page_at("# Big\n\nsmall\n", 800);
    let sizes: Vec<usize> = page
        .items
        .iter()
        .filter_map(|i| match i {
            Item::Run { scale, .. } => Some(*scale),
            _ => None,
        })
        .collect();
    assert_eq!(sizes.len(), 2);
    assert!(sizes[0] > sizes[1], "heading did not scale: {sizes:?}");
}

#[test]
fn a_taller_document_reports_a_taller_page() {
    let short = page_at("one\n", 800);
    let long = page_at("one\n\ntwo\n\nthree\n\nfour\n", 800);
    assert!(long.rows > short.rows, "{} !> {}", long.rows, short.rows);
    assert_eq!((short.rows, long.rows), (3, 9));
}

#[test]
fn a_code_block_draws_its_background_before_its_text() {
    // painter's order: a rect emitted after the runs would hide them
    let page = page_at("```\nfn main() {}\n```\n", 800);
    let first_rect = page
        .items
        .iter()
        .position(|i| matches!(i, Item::Fill { .. }));
    let first_run = page.items.iter().position(|i| matches!(i, Item::Run { .. }));
    assert!(first_rect.is_some() && first_run.is_some());
    assert!(first_rect < first_run, "background would cover the code");
}

#[test]
fn a_quote_bar_spans_everything_inside_it() {
    let page = page_at("> one\n>\n> two\n", 800);
    let Some(Item::Bar { y, h, .. }) = page.items.first() else {
        panic!("expected the bar first, got {:?}", page.items.first());
    };
    let lowest = page
        .items
        .iter()
        .filter_map(|i| match i {
            Item::Run { top, .. } => Some(*top + 1),
            _ => None,
        })
        .max()
        .unwrap();
    assert!(y + h >= lowest, "bar stops short of the quoted text");
}

#[test]
fn a_list_keeps_its_markers_beside_its_words() {
    let page = page_of("- [x] done\n- [ ] open\n- bare\n");
    let text: Vec<&str> = page.lines.iter().map(|l| l.text.as_str()).collect();
    assert_eq!(text, vec!["\u{25a0} done", "\u{25a1} open", "\u{2022} bare"]);
}

#[test]
fn a_known_language_is_coloured_and_loses_no_text() {
    let h = Highlighter::new();
    let lines = vec!["let x = 1;".to_owned(), "// done".to_owned()];
    let plain = Rgb(1, 2, 3);
    let coloured = spans(&h, Some("rust"), &lines, plain);
    assert_eq!(coloured.len(), 2);
    for (line, want) in coloured.iter().zip(&lines) {
        let got: String = line.iter().map(|s| s.text.as_str()).collect();
        assert_eq!(&got, want);
    }
    let fills: Vec<Rgb> = coloured.iter().flatten().map(|s| s.fill).collect();
    assert!(fills.iter().any(|f| *f != fills[0]), "one colour throughout");
}

#[test]
fn an_unknown_language_is_one_colour() {
    let h = Highlighter::new();
    let lines = vec!["let x = 1;".to_owned()];
    let plain = Rgb(1, 2, 3);
    for lang in [None, Some("no such language")] {
        let got = spans(&h, lang, &lines, plain);
        assert_eq!(got.len(), 1);
        assert_eq!(got[0].len(), 1);
        assert_eq!(got[0][0].text, "let x = 1;");
        assert_eq!(got[0][0].fill, plain);
    }
}

#[test]
fn an_over_long_line_of_code_folds_at_the_column() {
    let h = Highlighter::new();
    let plain = Rgb(1, 2, 3);
    let line = spans(&h, None, &vec!["abcdefgh".to_owned()], plain).remove(0);
    let folded = fold(&line, 3);
    let text: Vec<String> = folded
        .iter()
        .map(|l| l.iter().map(|(_, s)| s.text.as_str()).collect())
        .collect();
    assert_eq!(text, vec!["abc", "def", "gh"]);
}

#[test]
fn a_cell_reads_as_its_words() {
    let inlines = vec![
        Inline::Text {
            text: "see ".into(),
            style: Style::default(),
        },
        Inline::Image { alt: "a cat".into() },
        Inline::Note { number: 3 },
    ];
    assert_eq!(flatten(&inlines), "see a cat[3]");
}
