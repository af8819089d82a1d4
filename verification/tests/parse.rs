use gat::source::markdown::parse::{
    parse, Align, Block, Callout, Inline, ListItem, Style,
};
use gat::source::markdown::builder::build;
use gat::source::markdown::event::{Closing, Opening, Step};
use gat::source::markdown::url::{split_url, trim_url};

fn plain(text: &str, style: Style) -> Inline {
    Inline::Text {
        text: text.into(),
        style,
    }
}

/// What stands before the next bare URL, the URL, and what stands behind it.
fn url_in(s: &str) -> Option<(String, String, String)> {
    let chars: Vec<char> = s.chars().collect();
    let (at, end) = split_url(&chars)?;
    Some((
        chars[..at].iter().collect(),
        chars[at..end].iter().collect(),
        chars[end..].iter().collect(),
    ))
}

fn three(a: &str, b: &str, c: &str) -> Option<(String, String, String)> {
    Some((a.into(), b.into(), c.into()))
}

#[test]
fn a_url_inside_a_word_is_no_url() {
    assert_eq!(url_in("see:https://example.com"), None);
    assert_eq!(url_in("xhttps://example.com"), None);
    assert_eq!(
        url_in("see https://example.com"),
        three("see ", "https://example.com", "")
    );
}

#[test]
fn trimming_stops_at_the_first_character_it_keeps() {
    let chars: Vec<char> = "http://a.b/c).,".chars().collect();
    let end = trim_url(&chars, 0, chars.len());
    assert_eq!(chars[..end].iter().collect::<String>(), "http://a.b/c");
}

#[test]
fn what_is_never_closed_is_still_drawn() {
    let doc = build(vec![
        Step::Start(Opening::List(None)),
        Step::Start(Opening::Item),
        Step::Text("one".into()),
        Step::End(Closing::Item),
    ]);
    assert!(format!("{doc:?}").contains("\"one\""), "{doc:?}");
    let doc = build(vec![
        Step::Start(Opening::BlockQuote(None)),
        Step::Start(Opening::List(Some(1))),
        Step::Start(Opening::Item),
        Step::Start(Opening::Paragraph),
        Step::Text("two".into()),
    ]);
    assert!(format!("{doc:?}").contains("\"two\""), "{doc:?}");
}

#[test]
fn headings_carry_their_level() {
    let doc = parse("# One\n\n### Three\n");
    assert_eq!(
        doc.blocks,
        vec![
            Block::Heading {
                level: 1,
                inlines: vec![plain("One", Style::default())]
            },
            Block::Heading {
                level: 3,
                inlines: vec![plain("Three", Style::default())]
            },
        ]
    );
}

#[test]
fn nested_emphasis_flattens_onto_the_run() {
    let doc = parse("***both***");
    let Block::Paragraph(inlines) = &doc.blocks[0] else {
        panic!("expected a paragraph, got {:?}", doc.blocks[0]);
    };
    assert_eq!(
        inlines,
        &vec![plain(
            "both",
            Style {
                bold: true,
                italic: true,
                ..Style::default()
            }
        )]
    );
}

#[test]
fn a_soft_break_becomes_a_space_and_merges() {
    let doc = parse("one\ntwo");
    let Block::Paragraph(inlines) = &doc.blocks[0] else {
        panic!("expected a paragraph");
    };
    assert_eq!(inlines, &vec![plain("one two", Style::default())]);
}

#[test]
fn a_fenced_block_keeps_its_indentation_and_loses_the_fence_newline() {
    let doc = parse("```rust\nfn main() {\n    ok();\n}\n```\n");
    assert_eq!(
        doc.blocks,
        vec![Block::Code {
            lang: Some("rust".into()),
            lines: vec!["fn main() {".into(), "    ok();".into(), "}".into()],
        }]
    );
}

#[test]
fn a_fence_with_no_info_string_names_no_language() {
    let doc = parse("```\nplain\n```\n");
    assert_eq!(
        doc.blocks,
        vec![Block::Code {
            lang: None,
            lines: vec!["plain".into()],
        }]
    );
}

#[test]
fn a_tight_list_still_produces_paragraphs() {
    // tight items emit no Paragraph events at all, so without
    // the implicit open their text would vanish
    let doc = parse("- one\n- two\n");
    let Block::List { start, items } = &doc.blocks[0] else {
        panic!("expected a list, got {:?}", doc.blocks[0]);
    };
    assert_eq!(*start, None);
    assert_eq!(items.len(), 2);
    assert_eq!(
        items[0],
        ListItem {
            task: None,
            blocks: vec![Block::Paragraph(vec![plain("one", Style::default())])],
        }
    );
}

#[test]
fn an_ordered_list_keeps_its_start() {
    let doc = parse("3. three\n4. four\n");
    let Block::List { start, .. } = &doc.blocks[0] else {
        panic!("expected a list");
    };
    assert_eq!(*start, Some(3));
}

#[test]
fn raw_html_never_reaches_the_document_as_markup() {
    // neither path can become an element in the generated
    // SVG: block html is dropped, inline html stays text
    let doc = parse("<script>bad()</script>\n\ntext <b>x</b> more\n");
    let rendered = format!("{:?}", doc);
    assert!(!rendered.contains("Html"), "html leaked into the document");

    let Block::Paragraph(inlines) = doc.blocks.last().unwrap() else {
        panic!("expected a trailing paragraph");
    };
    let joined: String = inlines
        .iter()
        .map(|i| match i {
            Inline::Text { text, .. } => text.as_str(),
            _ => "",
        })
        .collect();
    assert!(joined.contains("<b>"), "inline html should survive as text");
}

#[test]
fn an_image_becomes_its_alt_text() {
    let doc = parse("![a cat](cat.png)");
    let Block::Paragraph(inlines) = &doc.blocks[0] else {
        panic!("expected a paragraph");
    };
    assert_eq!(
        inlines,
        &vec![Inline::Image {
            alt: "a cat".into()
        }]
    );
}

#[test]
fn front_matter_is_dropped() {
    // the fences are a rule and the fields a paragraph
    // if the metadata extensions are not enabled
    let doc = parse("---\ntitle: x\ntags: [a, b]\n---\n\n# Heading\n");
    assert_eq!(
        doc.blocks,
        vec![Block::Heading {
            level: 1,
            inlines: vec![plain("Heading", Style::default())],
        }]
    );
}

#[test]
fn toml_front_matter_is_dropped_too() {
    let doc = parse("+++\ntitle = \"x\"\n+++\n\ntext\n");
    assert_eq!(
        doc.blocks,
        vec![Block::Paragraph(vec![plain("text", Style::default())])]
    );
}

#[test]
fn a_task_item_records_whether_it_is_done() {
    let doc = parse("- [x] done\n- [ ] todo\n- plain\n");
    let Block::List { items, .. } = &doc.blocks[0] else {
        panic!("expected a list, got {:?}", doc.blocks[0]);
    };
    let tasks: Vec<_> = items.iter().map(|i| i.task).collect();
    assert_eq!(tasks, vec![Some(true), Some(false), None]);
}

#[test]
fn a_callout_keeps_its_kind() {
    let doc = parse("> [!WARNING]\n> mind the gap\n");
    let Block::Quote { callout, blocks } = &doc.blocks[0] else {
        panic!("expected a quote, got {:?}", doc.blocks[0]);
    };
    assert_eq!(*callout, Some(Callout::Warning));
    assert_eq!(
        *blocks,
        vec![Block::Paragraph(vec![plain(
            "mind the gap",
            Style::default()
        )])]
    );
}

#[test]
fn a_plain_quote_has_no_callout() {
    let doc = parse("> just a quote\n");
    let Block::Quote { callout, .. } = &doc.blocks[0] else {
        panic!("expected a quote");
    };
    assert_eq!(*callout, None);
}

#[test]
fn a_bare_url_is_styled_as_a_link() {
    let linked = Style {
        link: true,
        ..Style::default()
    };
    let doc = parse("see https://example.com/a for more\n");
    assert_eq!(
        doc.blocks,
        vec![Block::Paragraph(vec![
            plain("see ", Style::default()),
            plain("https://example.com/a", linked),
            plain(" for more", Style::default()),
        ])]
    );
}

#[test]
fn a_url_does_not_swallow_the_sentence_punctuation() {
    // a full stop after a url is the prose's, and a
    // closing bracket is the url's only if it opened one
    assert_eq!(
        url_in("at https://example.com/a."),
        three("at ", "https://example.com/a", ".")
    );
    assert_eq!(
        url_in("(https://example.com/a)"),
        three("(", "https://example.com/a", ")")
    );
    assert_eq!(
        url_in("https://en.wikipedia.org/wiki/Foo_(bar)"),
        three("", "https://en.wikipedia.org/wiki/Foo_(bar)", "")
    );
}

#[test]
fn a_url_needs_a_boundary_and_a_body() {
    assert_eq!(url_in("xhttps://example.com"), None);
    assert_eq!(url_in("https://"), None);
    assert_eq!(url_in("ftp://example.com"), None);
}

#[test]
fn a_url_in_a_code_span_is_not_a_link() {
    let code = Style {
        code: true,
        ..Style::default()
    };
    let doc = parse("`https://example.com`\n");
    assert_eq!(
        doc.blocks,
        vec![Block::Paragraph(vec![plain("https://example.com", code)])]
    );
}

#[test]
fn a_url_inside_a_real_link_is_not_split() {
    // the link style is already set, so the scan is
    // skipped and the text stays one run
    let linked = Style {
        link: true,
        ..Style::default()
    };
    let doc = parse("[https://example.com](https://example.com)\n");
    assert_eq!(
        doc.blocks,
        vec![Block::Paragraph(vec![plain("https://example.com", linked)])]
    );
}

#[test]
fn footnotes_are_numbered_by_first_reference_and_moved_to_the_end() {
    // the definitions are written in the other order, so
    // this fails if numbering follows the definitions
    let doc = parse("see[^z] and[^a]\n\n[^a]: alpha\n[^z]: zulu\n");

    let Block::Paragraph(inlines) = &doc.blocks[0] else {
        panic!("expected a paragraph, got {:?}", doc.blocks[0]);
    };
    let numbers: Vec<_> = inlines
        .iter()
        .filter_map(|i| match i {
            Inline::Note { number } => Some(*number),
            _ => None,
        })
        .collect();
    assert_eq!(numbers, vec![1, 2]);

    assert_eq!(doc.blocks[1], Block::Rule);
    let Block::Footnotes(notes) = &doc.blocks[2] else {
        panic!("expected footnotes, got {:?}", doc.blocks[2]);
    };
    assert_eq!(notes[0].number, 1);
    assert_eq!(
        notes[0].blocks,
        vec![Block::Paragraph(vec![plain("zulu", Style::default())])]
    );
    assert_eq!(notes[1].number, 2);
}

#[test]
fn a_document_without_footnotes_gains_no_rule() {
    let doc = parse("just text\n");
    assert_eq!(doc.blocks.len(), 1);
}

#[test]
fn a_table_keeps_its_alignments_and_cells() {
    let doc = parse("| a | b | c |\n|:--|:-:|--:|\n| 1 | 2 | 3 |\n");
    let Block::Table(t) = &doc.blocks[0] else {
        panic!("expected a table, got {:?}", doc.blocks[0]);
    };
    assert_eq!(t.align, vec![Align::Left, Align::Center, Align::Right]);
    assert_eq!(t.head.len(), 3);
    assert_eq!(t.head[0], vec![plain("a", Style::default())]);
    assert_eq!(t.rows.len(), 1);
    assert_eq!(t.rows[0][2], vec![plain("3", Style::default())]);
}

#[test]
fn a_column_with_no_alignment_marker_reads_as_left() {
    let doc = parse("| a |\n|---|\n| 1 |\n");
    let Block::Table(t) = &doc.blocks[0] else {
        panic!("expected a table");
    };
    assert_eq!(t.align, vec![Align::Left]);
}

#[test]
fn a_quote_nests_its_blocks() {
    let doc = parse("> quoted\n");
    assert_eq!(
        doc.blocks,
        vec![Block::Quote {
            callout: None,
            blocks: vec![Block::Paragraph(vec![plain("quoted", Style::default())])],
        }]
    );
}

#[test]
fn a_label_names_each_callout() {
    assert_eq!(Callout::Note.label(), "Note");
    assert_eq!(Callout::Tip.label(), "Tip");
    assert_eq!(Callout::Important.label(), "Important");
    assert_eq!(Callout::Warning.label(), "Warning");
    assert_eq!(Callout::Caution.label(), "Caution");
}

#[test]
fn a_note_written_twice_keeps_one_number() {
    let doc = parse("a[^n] b[^m] c[^n]\n\n[^n]: one\n[^m]: two\n");
    let Block::Paragraph(inlines) = &doc.blocks[0] else {
        panic!("expected a paragraph, got {:?}", doc.blocks[0]);
    };
    let numbers: Vec<usize> = inlines
        .iter()
        .filter_map(|i| match i {
            Inline::Note { number } => Some(*number),
            _ => None,
        })
        .collect();
    assert_eq!(numbers, vec![1, 2, 1]);
}

#[test]
fn a_hard_break_splits_a_line() {
    let doc = parse("one  \ntwo\n");
    let Block::Paragraph(inlines) = &doc.blocks[0] else {
        panic!("expected a paragraph, got {:?}", doc.blocks[0]);
    };
    assert!(inlines.iter().any(|i| matches!(i, Inline::Break)), "{inlines:?}");
}

#[test]
fn strikethrough_closes_with_its_tag() {
    let doc = parse("~~gone~~ kept\n");
    let struck = Style {
        strike: true,
        ..Style::default()
    };
    assert_eq!(
        doc.blocks,
        vec![Block::Paragraph(vec![
            plain("gone", struck),
            plain(" kept", Style::default()),
        ])]
    );
}
