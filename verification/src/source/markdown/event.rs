//! The events a markdown text is read as.

use vstd::prelude::*;

use crate::source::markdown::parse::{Align, Callout};

verus! {

/// The element a start event opens, with what the page needs of it.
#[derive(Debug)]
pub enum Opening {
    Paragraph,
    Heading(u8),
    CodeBlock(Option<String>),
    BlockQuote(Option<Callout>),
    List(Option<u64>),
    Item,
    Emphasis,
    Strong,
    Strikethrough,
    Link,
    Image,
    MetadataBlock,
    Table(Vec<Align>),
    TableCell,
    FootnoteDefinition(String),
    Other,
}

/// The element an end event closes.
#[derive(Clone, Copy, Debug, PartialEq, Eq, Structural)]
pub enum Closing {
    Paragraph,
    Heading(u8),
    CodeBlock,
    BlockQuote,
    List,
    Item,
    Emphasis,
    Strong,
    Strikethrough,
    Link,
    Image,
    MetadataBlock,
    Table,
    TableHead,
    TableRow,
    TableCell,
    FootnoteDefinition,
    Other,
}

/// One step through a markdown text.
#[derive(Debug)]
pub enum Step {
    Start(Opening),
    End(Closing),
    Text(String),
    Code(String),
    Html(String),
    InlineHtml(String),
    SoftBreak,
    HardBreak,
    Rule,
    FootnoteReference(String),
    TaskListMarker(bool),
    Other,
}

/// A `Opening`, with its text as characters.
pub enum OpeningModel {
    Paragraph,
    Heading(u8),
    CodeBlock(Option<Seq<char>>),
    BlockQuote(Option<Callout>),
    List(Option<u64>),
    Item,
    Emphasis,
    Strong,
    Strikethrough,
    Link,
    Image,
    MetadataBlock,
    Table(Seq<Align>),
    TableCell,
    FootnoteDefinition(Seq<char>),
    Other,
}

/// An `Step`, with its text as characters.
pub enum StepModel {
    Start(OpeningModel),
    End(Closing),
    Text(Seq<char>),
    Code(Seq<char>),
    Html(Seq<char>),
    InlineHtml(Seq<char>),
    SoftBreak,
    HardBreak,
    Rule,
    FootnoteReference(Seq<char>),
    TaskListMarker(bool),
    Other,
}

/// The characters of an optional string.
pub open spec fn opt_chars(s: Option<String>) -> Option<Seq<char>> {
    match s {
        Some(t) => Some(t@),
        None => None,
    }
}

impl View for Opening {
    type V = OpeningModel;

    open spec fn view(&self) -> OpeningModel {
        match *self {
            Opening::Paragraph => OpeningModel::Paragraph,
            Opening::Heading(n) => OpeningModel::Heading(n),
            Opening::CodeBlock(lang) => OpeningModel::CodeBlock(opt_chars(lang)),
            Opening::BlockQuote(c) => OpeningModel::BlockQuote(c),
            Opening::List(n) => OpeningModel::List(n),
            Opening::Item => OpeningModel::Item,
            Opening::Emphasis => OpeningModel::Emphasis,
            Opening::Strong => OpeningModel::Strong,
            Opening::Strikethrough => OpeningModel::Strikethrough,
            Opening::Link => OpeningModel::Link,
            Opening::Image => OpeningModel::Image,
            Opening::MetadataBlock => OpeningModel::MetadataBlock,
            Opening::Table(a) => OpeningModel::Table(a@),
            Opening::TableCell => OpeningModel::TableCell,
            Opening::FootnoteDefinition(l) => OpeningModel::FootnoteDefinition(l@),
            Opening::Other => OpeningModel::Other,
        }
    }
}

impl View for Step {
    type V = StepModel;

    open spec fn view(&self) -> StepModel {
        match *self {
            Step::Start(t) => StepModel::Start(t@),
            Step::End(t) => StepModel::End(t),
            Step::Text(t) => StepModel::Text(t@),
            Step::Code(t) => StepModel::Code(t@),
            Step::Html(t) => StepModel::Html(t@),
            Step::InlineHtml(t) => StepModel::InlineHtml(t@),
            Step::SoftBreak => StepModel::SoftBreak,
            Step::HardBreak => StepModel::HardBreak,
            Step::Rule => StepModel::Rule,
            Step::FootnoteReference(l) => StepModel::FootnoteReference(l@),
            Step::TaskListMarker(done) => StepModel::TaskListMarker(done),
            Step::Other => StepModel::Other,
        }
    }
}

/// The models of a sequence of events.
pub open spec fn step_models(s: Seq<Step>) -> Seq<StepModel> {
    s.map_values(|e: Step| e@)
}

/// The string type of `pulldown_cmark`.
#[verifier::external_type_specification]
#[verifier::external_body]
pub struct ExCowStr<'a>(pulldown_cmark::CowStr<'a>);

/// The heading levels of `pulldown_cmark`.
#[verifier::external_type_specification]
pub struct ExHeadingLevel(pulldown_cmark::HeadingLevel);

/// The alert kinds of `pulldown_cmark`.
#[verifier::external_type_specification]
pub struct ExBlockQuoteKind(pulldown_cmark::BlockQuoteKind);

/// The front matter kinds of `pulldown_cmark`.
#[verifier::external_type_specification]
pub struct ExMetadataBlockKind(pulldown_cmark::MetadataBlockKind);

/// The code block kinds of `pulldown_cmark`.
#[verifier::external_type_specification]
pub struct ExCodeBlockKind<'a>(pulldown_cmark::CodeBlockKind<'a>);

/// The link kinds of `pulldown_cmark`.
#[verifier::external_type_specification]
pub struct ExLinkType(pulldown_cmark::LinkType);

/// The column alignments of `pulldown_cmark`.
#[verifier::external_type_specification]
pub struct ExAlignment(pulldown_cmark::Alignment);

/// The elements of `pulldown_cmark`.
#[verifier::external_type_specification]
pub struct ExTag<'a>(pulldown_cmark::Tag<'a>);

/// The element ends of `pulldown_cmark`.
#[verifier::external_type_specification]
pub struct ExTagEnd(pulldown_cmark::TagEnd);

/// The events of `pulldown_cmark`.
#[verifier::external_type_specification]
pub struct ExEvent<'a>(pulldown_cmark::Event<'a>);

/// The characters a `pulldown_cmark` string holds.
pub uninterp spec fn cow_chars(s: pulldown_cmark::CowStr<'_>) -> Seq<char>;

/// `CowStr::to_string` gives the string's own characters.
#[verifier::external_body]
fn cow_string(s: &pulldown_cmark::CowStr<'_>) -> (r: String)
    ensures
        r@ == cow_chars(*s),
{
    s.to_string()
}

/// The callout an alert kind asks for.
pub open spec fn callout_of(kind: pulldown_cmark::BlockQuoteKind) -> Callout {
    match kind {
        pulldown_cmark::BlockQuoteKind::Note => Callout::Note,
        pulldown_cmark::BlockQuoteKind::Tip => Callout::Tip,
        pulldown_cmark::BlockQuoteKind::Important => Callout::Important,
        pulldown_cmark::BlockQuoteKind::Warning => Callout::Warning,
        pulldown_cmark::BlockQuoteKind::Caution => Callout::Caution,
    }
}

/// The alignment a delimiter cell asks for; without a marker, the left.
pub open spec fn align_from(a: pulldown_cmark::Alignment) -> Align {
    match a {
        pulldown_cmark::Alignment::Right => Align::Right,
        pulldown_cmark::Alignment::Center => Align::Center,
        pulldown_cmark::Alignment::None => Align::Left,
        pulldown_cmark::Alignment::Left => Align::Left,
    }
}

/// The number of a heading level.
pub open spec fn level_number(level: pulldown_cmark::HeadingLevel) -> u8 {
    match level {
        pulldown_cmark::HeadingLevel::H1 => 1,
        pulldown_cmark::HeadingLevel::H2 => 2,
        pulldown_cmark::HeadingLevel::H3 => 3,
        pulldown_cmark::HeadingLevel::H4 => 4,
        pulldown_cmark::HeadingLevel::H5 => 5,
        pulldown_cmark::HeadingLevel::H6 => 6,
    }
}

/// The language of a code block: what stands behind the fence, where anything does.
pub open spec fn language_of(kind: pulldown_cmark::CodeBlockKind<'_>) -> Option<Seq<char>> {
    match kind {
        pulldown_cmark::CodeBlockKind::Fenced(lang) => if cow_chars(lang).len() > 0 {
            Some(cow_chars(lang))
        } else {
            None
        },
        pulldown_cmark::CodeBlockKind::Indented => None,
    }
}

/// What the page needs of an element that opens.
pub open spec fn opening_model(t: pulldown_cmark::Tag<'_>) -> OpeningModel {
    match t {
        pulldown_cmark::Tag::Paragraph => OpeningModel::Paragraph,
        pulldown_cmark::Tag::Heading { level, .. } => OpeningModel::Heading(level_number(level)),
        pulldown_cmark::Tag::CodeBlock(kind) => OpeningModel::CodeBlock(language_of(kind)),
        pulldown_cmark::Tag::BlockQuote(kind) => OpeningModel::BlockQuote(
            match kind {
                Some(k) => Some(callout_of(k)),
                None => None,
            },
        ),
        pulldown_cmark::Tag::List(start) => OpeningModel::List(start),
        pulldown_cmark::Tag::Item => OpeningModel::Item,
        pulldown_cmark::Tag::Emphasis => OpeningModel::Emphasis,
        pulldown_cmark::Tag::Strong => OpeningModel::Strong,
        pulldown_cmark::Tag::Strikethrough => OpeningModel::Strikethrough,
        pulldown_cmark::Tag::Link { .. } => OpeningModel::Link,
        pulldown_cmark::Tag::Image { .. } => OpeningModel::Image,
        pulldown_cmark::Tag::MetadataBlock(_) => OpeningModel::MetadataBlock,
        pulldown_cmark::Tag::Table(align) => OpeningModel::Table(
            align@.map_values(|a: pulldown_cmark::Alignment| align_from(a)),
        ),
        pulldown_cmark::Tag::TableCell => OpeningModel::TableCell,
        pulldown_cmark::Tag::FootnoteDefinition(label) => OpeningModel::FootnoteDefinition(
            cow_chars(label),
        ),
        _ => OpeningModel::Other,
    }
}

/// What the page needs of an element that closes.
pub open spec fn closing_from(t: pulldown_cmark::TagEnd) -> Closing {
    match t {
        pulldown_cmark::TagEnd::Paragraph => Closing::Paragraph,
        pulldown_cmark::TagEnd::Heading(level) => Closing::Heading(level_number(level)),
        pulldown_cmark::TagEnd::CodeBlock => Closing::CodeBlock,
        pulldown_cmark::TagEnd::BlockQuote(_) => Closing::BlockQuote,
        pulldown_cmark::TagEnd::List(_) => Closing::List,
        pulldown_cmark::TagEnd::Item => Closing::Item,
        pulldown_cmark::TagEnd::Emphasis => Closing::Emphasis,
        pulldown_cmark::TagEnd::Strong => Closing::Strong,
        pulldown_cmark::TagEnd::Strikethrough => Closing::Strikethrough,
        pulldown_cmark::TagEnd::Link => Closing::Link,
        pulldown_cmark::TagEnd::Image => Closing::Image,
        pulldown_cmark::TagEnd::MetadataBlock(_) => Closing::MetadataBlock,
        pulldown_cmark::TagEnd::Table => Closing::Table,
        pulldown_cmark::TagEnd::TableHead => Closing::TableHead,
        pulldown_cmark::TagEnd::TableRow => Closing::TableRow,
        pulldown_cmark::TagEnd::TableCell => Closing::TableCell,
        pulldown_cmark::TagEnd::FootnoteDefinition => Closing::FootnoteDefinition,
        _ => Closing::Other,
    }
}

/// What the page needs of an event.
pub open spec fn step_model(e: pulldown_cmark::Event<'_>) -> StepModel {
    match e {
        pulldown_cmark::Event::Start(t) => StepModel::Start(opening_model(t)),
        pulldown_cmark::Event::End(t) => StepModel::End(closing_from(t)),
        pulldown_cmark::Event::Text(t) => StepModel::Text(cow_chars(t)),
        pulldown_cmark::Event::Code(t) => StepModel::Code(cow_chars(t)),
        pulldown_cmark::Event::Html(t) => StepModel::Html(cow_chars(t)),
        pulldown_cmark::Event::InlineHtml(t) => StepModel::InlineHtml(cow_chars(t)),
        pulldown_cmark::Event::SoftBreak => StepModel::SoftBreak,
        pulldown_cmark::Event::HardBreak => StepModel::HardBreak,
        pulldown_cmark::Event::Rule => StepModel::Rule,
        pulldown_cmark::Event::FootnoteReference(l) => StepModel::FootnoteReference(cow_chars(l)),
        pulldown_cmark::Event::TaskListMarker(done) => StepModel::TaskListMarker(done),
        _ => StepModel::Other,
    }
}

fn callout(kind: &pulldown_cmark::BlockQuoteKind) -> (r: Callout)
    ensures
        r == callout_of(*kind),
{
    match kind {
        pulldown_cmark::BlockQuoteKind::Note => Callout::Note,
        pulldown_cmark::BlockQuoteKind::Tip => Callout::Tip,
        pulldown_cmark::BlockQuoteKind::Important => Callout::Important,
        pulldown_cmark::BlockQuoteKind::Warning => Callout::Warning,
        pulldown_cmark::BlockQuoteKind::Caution => Callout::Caution,
    }
}

fn align_of(a: &pulldown_cmark::Alignment) -> (r: Align)
    ensures
        r == align_from(*a),
{
    match a {
        pulldown_cmark::Alignment::Right => Align::Right,
        pulldown_cmark::Alignment::Center => Align::Center,
        pulldown_cmark::Alignment::None => Align::Left,
        pulldown_cmark::Alignment::Left => Align::Left,
    }
}

fn heading_level(level: &pulldown_cmark::HeadingLevel) -> (r: u8)
    ensures
        r == level_number(*level),
{
    match level {
        pulldown_cmark::HeadingLevel::H1 => 1,
        pulldown_cmark::HeadingLevel::H2 => 2,
        pulldown_cmark::HeadingLevel::H3 => 3,
        pulldown_cmark::HeadingLevel::H4 => 4,
        pulldown_cmark::HeadingLevel::H5 => 5,
        pulldown_cmark::HeadingLevel::H6 => 6,
    }
}

/// The language tag on a fenced code block, if it has one.
fn code_language(kind: &pulldown_cmark::CodeBlockKind<'_>) -> (r: Option<String>)
    ensures
        opt_chars(r) == language_of(*kind),
{
    match kind {
        pulldown_cmark::CodeBlockKind::Fenced(lang) => {
            let lang = cow_string(lang);
            if lang.as_str().is_empty() {
                None
            } else {
                Some(lang)
            }
        },
        pulldown_cmark::CodeBlockKind::Indented => None,
    }
}

fn aligns_of(align: &Vec<pulldown_cmark::Alignment>) -> (r: Vec<Align>)
    ensures
        r@ == align@.map_values(|a: pulldown_cmark::Alignment| align_from(a)),
{
    let mut out: Vec<Align> = Vec::new();
    let mut i: usize = 0;
    while i < align.len()
        invariant
            i <= align@.len(),
            out@ =~= align@.take(i as int).map_values(
                |a: pulldown_cmark::Alignment| align_from(a),
            ),
        decreases align.len() - i,
    {
        out.push(align_of(&align[i]));
        i += 1;
    }
    assert(align@.take(i as int) =~= align@);
    out
}

fn opening_of(t: &pulldown_cmark::Tag<'_>) -> (r: Opening)
    ensures
        r@ == opening_model(*t),
{
    match t {
        pulldown_cmark::Tag::Paragraph => Opening::Paragraph,
        pulldown_cmark::Tag::Heading { level, .. } => Opening::Heading(heading_level(level)),
        pulldown_cmark::Tag::CodeBlock(kind) => Opening::CodeBlock(code_language(kind)),
        pulldown_cmark::Tag::BlockQuote(kind) => Opening::BlockQuote(
            match kind {
                Some(k) => Some(callout(k)),
                None => None,
            },
        ),
        pulldown_cmark::Tag::List(start) => Opening::List(*start),
        pulldown_cmark::Tag::Item => Opening::Item,
        pulldown_cmark::Tag::Emphasis => Opening::Emphasis,
        pulldown_cmark::Tag::Strong => Opening::Strong,
        pulldown_cmark::Tag::Strikethrough => Opening::Strikethrough,
        pulldown_cmark::Tag::Link { .. } => Opening::Link,
        pulldown_cmark::Tag::Image { .. } => Opening::Image,
        pulldown_cmark::Tag::MetadataBlock(_) => Opening::MetadataBlock,
        pulldown_cmark::Tag::Table(align) => Opening::Table(aligns_of(align)),
        pulldown_cmark::Tag::TableCell => Opening::TableCell,
        pulldown_cmark::Tag::FootnoteDefinition(label) => Opening::FootnoteDefinition(
            cow_string(label),
        ),
        _ => Opening::Other,
    }
}

fn closing_of(t: &pulldown_cmark::TagEnd) -> (r: Closing)
    ensures
        r == closing_from(*t),
{
    match t {
        pulldown_cmark::TagEnd::Paragraph => Closing::Paragraph,
        pulldown_cmark::TagEnd::Heading(level) => Closing::Heading(heading_level(level)),
        pulldown_cmark::TagEnd::CodeBlock => Closing::CodeBlock,
        pulldown_cmark::TagEnd::BlockQuote(_) => Closing::BlockQuote,
        pulldown_cmark::TagEnd::List(_) => Closing::List,
        pulldown_cmark::TagEnd::Item => Closing::Item,
        pulldown_cmark::TagEnd::Emphasis => Closing::Emphasis,
        pulldown_cmark::TagEnd::Strong => Closing::Strong,
        pulldown_cmark::TagEnd::Strikethrough => Closing::Strikethrough,
        pulldown_cmark::TagEnd::Link => Closing::Link,
        pulldown_cmark::TagEnd::Image => Closing::Image,
        pulldown_cmark::TagEnd::MetadataBlock(_) => Closing::MetadataBlock,
        pulldown_cmark::TagEnd::Table => Closing::Table,
        pulldown_cmark::TagEnd::TableHead => Closing::TableHead,
        pulldown_cmark::TagEnd::TableRow => Closing::TableRow,
        pulldown_cmark::TagEnd::TableCell => Closing::TableCell,
        pulldown_cmark::TagEnd::FootnoteDefinition => Closing::FootnoteDefinition,
        _ => Closing::Other,
    }
}

fn step_of(e: &pulldown_cmark::Event<'_>) -> (r: Step)
    ensures
        r@ == step_model(*e),
{
    match e {
        pulldown_cmark::Event::Start(t) => Step::Start(opening_of(t)),
        pulldown_cmark::Event::End(t) => Step::End(closing_of(t)),
        pulldown_cmark::Event::Text(t) => Step::Text(cow_string(t)),
        pulldown_cmark::Event::Code(t) => Step::Code(cow_string(t)),
        pulldown_cmark::Event::Html(t) => Step::Html(cow_string(t)),
        pulldown_cmark::Event::InlineHtml(t) => Step::InlineHtml(cow_string(t)),
        pulldown_cmark::Event::SoftBreak => Step::SoftBreak,
        pulldown_cmark::Event::HardBreak => Step::HardBreak,
        pulldown_cmark::Event::Rule => Step::Rule,
        pulldown_cmark::Event::FootnoteReference(l) => Step::FootnoteReference(cow_string(l)),
        pulldown_cmark::Event::TaskListMarker(done) => Step::TaskListMarker(*done),
        _ => Step::Other,
    }
}

/// The steps `pulldown_cmark` reads `text` as, with the extensions whose bits are set in `bits`.
pub uninterp spec fn markdown_steps(text: Seq<char>, bits: u32) -> Seq<StepModel>;

/// `pulldown_cmark::Parser::new_ext`, run to its end. The events are a function of the text and of
/// the enabled extensions; which events those are is CommonMark's and GitHub's grammar, and is
/// not stated here.
#[verifier::external_body]
fn events(text: &str, bits: u32) -> (r: Vec<pulldown_cmark::Event<'_>>)
    ensures
        r@.map_values(|e: pulldown_cmark::Event<'_>| step_model(e)) == markdown_steps(text@, bits),
{
    let opts = pulldown_cmark::Options::from_bits_truncate(bits);
    pulldown_cmark::Parser::new_ext(text, opts).collect()
}

/// The steps `text` is read as, with the extensions whose bits are set in `bits`.
pub fn steps(text: &str, bits: u32) -> (r: Vec<Step>)
    ensures
        step_models(r@) == markdown_steps(text@, bits),
{
    let read = events(text, bits);
    let mut out: Vec<Step> = Vec::new();
    let mut i: usize = 0;
    while i < read.len()
        invariant
            i <= read@.len(),
            step_models(out@) =~= read@.take(i as int).map_values(
                |e: pulldown_cmark::Event<'_>| step_model(e),
            ),
        decreases read.len() - i,
    {
        let step = step_of(&read[i]);
        proof {
            let model = |e: pulldown_cmark::Event<'_>| step_model(e);
            assert(read@.take(i + 1) =~= read@.take(i as int).push(read@[i as int]));
            assert(read@.take(i + 1).map_values(model) =~= read@.take(i as int).map_values(
                model,
            ).push(step@));
            assert(step_models(out@.push(step)) =~= step_models(out@).push(step@));
        }
        out.push(step);
        i += 1;
    }
    assert(read@.take(i as int) =~= read@);
    out
}

/// An element is opened and closed as what it is: what emphasizes is emphasis, what is strong is
/// strong, and so on for every element that a page draws.
pub proof fn law_elements_are_what_they_are(start: Option<u64>, ordered: bool)
    ensures
        opening_model(pulldown_cmark::Tag::Paragraph) == OpeningModel::Paragraph,
        opening_model(pulldown_cmark::Tag::Item) == OpeningModel::Item,
        opening_model(pulldown_cmark::Tag::List(start)) == OpeningModel::List(start),
        opening_model(pulldown_cmark::Tag::Emphasis) == OpeningModel::Emphasis,
        opening_model(pulldown_cmark::Tag::Strong) == OpeningModel::Strong,
        opening_model(pulldown_cmark::Tag::Strikethrough) == OpeningModel::Strikethrough,
        opening_model(pulldown_cmark::Tag::TableCell) == OpeningModel::TableCell,
        closing_from(pulldown_cmark::TagEnd::Paragraph) == Closing::Paragraph,
        closing_from(pulldown_cmark::TagEnd::CodeBlock) == Closing::CodeBlock,
        closing_from(pulldown_cmark::TagEnd::List(ordered)) == Closing::List,
        closing_from(pulldown_cmark::TagEnd::Item) == Closing::Item,
        closing_from(pulldown_cmark::TagEnd::Emphasis) == Closing::Emphasis,
        closing_from(pulldown_cmark::TagEnd::Strong) == Closing::Strong,
        closing_from(pulldown_cmark::TagEnd::Strikethrough) == Closing::Strikethrough,
        closing_from(pulldown_cmark::TagEnd::Link) == Closing::Link,
        closing_from(pulldown_cmark::TagEnd::Image) == Closing::Image,
        closing_from(pulldown_cmark::TagEnd::Table) == Closing::Table,
        closing_from(pulldown_cmark::TagEnd::TableHead) == Closing::TableHead,
        closing_from(pulldown_cmark::TagEnd::TableRow) == Closing::TableRow,
        closing_from(pulldown_cmark::TagEnd::TableCell) == Closing::TableCell,
        closing_from(pulldown_cmark::TagEnd::FootnoteDefinition) == Closing::FootnoteDefinition,
        step_model(pulldown_cmark::Event::SoftBreak) == StepModel::SoftBreak,
        step_model(pulldown_cmark::Event::HardBreak) == StepModel::HardBreak,
        step_model(pulldown_cmark::Event::Rule) == StepModel::Rule,
        step_model(pulldown_cmark::Event::TaskListMarker(ordered)) == StepModel::TaskListMarker(
            ordered,
        ),
{
}

/// An element with words of its own keeps them, and one with others inside is opened as it is.
pub proof fn law_elements_keep_their_words<'a>(
    t: pulldown_cmark::CowStr<'a>,
    level: pulldown_cmark::HeadingLevel,
    kind: pulldown_cmark::BlockQuoteKind,
    align: Vec<pulldown_cmark::Alignment>,
    i: int,
)
    ensures
        step_model(pulldown_cmark::Event::Text(t)) == StepModel::Text(cow_chars(t)),
        step_model(pulldown_cmark::Event::Code(t)) == StepModel::Code(cow_chars(t)),
        step_model(pulldown_cmark::Event::FootnoteReference(t)) == StepModel::FootnoteReference(
            cow_chars(t),
        ),
        opening_model(pulldown_cmark::Tag::FootnoteDefinition(t)) == OpeningModel::FootnoteDefinition(
            cow_chars(t),
        ),
        opening_model(
            pulldown_cmark::Tag::CodeBlock(pulldown_cmark::CodeBlockKind::Fenced(t)),
        ) == OpeningModel::CodeBlock(
            if cow_chars(t).len() > 0 {
                Some(cow_chars(t))
            } else {
                None
            },
        ),
        opening_model(
            pulldown_cmark::Tag::CodeBlock(pulldown_cmark::CodeBlockKind::Indented),
        ) == OpeningModel::CodeBlock(None),
        opening_model(pulldown_cmark::Tag::BlockQuote(None)) == OpeningModel::BlockQuote(None),
        opening_model(pulldown_cmark::Tag::BlockQuote(Some(kind))) == OpeningModel::BlockQuote(
            Some(
                match kind {
                    pulldown_cmark::BlockQuoteKind::Note => Callout::Note,
                    pulldown_cmark::BlockQuoteKind::Tip => Callout::Tip,
                    pulldown_cmark::BlockQuoteKind::Important => Callout::Important,
                    pulldown_cmark::BlockQuoteKind::Warning => Callout::Warning,
                    pulldown_cmark::BlockQuoteKind::Caution => Callout::Caution,
                },
            ),
        ),
        closing_from(pulldown_cmark::TagEnd::Heading(level)) == Closing::Heading(
            match level {
                pulldown_cmark::HeadingLevel::H1 => 1u8,
                pulldown_cmark::HeadingLevel::H2 => 2u8,
                pulldown_cmark::HeadingLevel::H3 => 3u8,
                pulldown_cmark::HeadingLevel::H4 => 4u8,
                pulldown_cmark::HeadingLevel::H5 => 5u8,
                pulldown_cmark::HeadingLevel::H6 => 6u8,
            },
        ),
        0 <= i < align@.len() ==> (opening_model(
            pulldown_cmark::Tag::Table(align),
        ) matches OpeningModel::Table(of) && of.len() == align@.len() && of[i] == (match align@[i] {
            pulldown_cmark::Alignment::Right => Align::Right,
            pulldown_cmark::Alignment::Center => Align::Center,
            pulldown_cmark::Alignment::None => Align::Left,
            pulldown_cmark::Alignment::Left => Align::Left,
        })),
{
}

} // verus!
