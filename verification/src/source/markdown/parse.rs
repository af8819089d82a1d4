//! Markdown events to a block tree.

use vstd::prelude::*;

use crate::source::markdown::builder;
use crate::source::markdown::event;
use crate::text;

verus! {

/// A parsed document: blocks in reading order, nested where markdown nests.
#[derive(Debug, Default, PartialEq)]
pub struct Doc {
    pub blocks: Vec<Block>,
}

/// One block of a document.
#[derive(Debug, PartialEq)]
pub enum Block {
    Heading { level: u8, inlines: Vec<Inline> },
    Paragraph(Vec<Inline>),
    /// Already split on newlines, with tabs still in place.
    Code { lang: Option<String>, lines: Vec<String> },
    List { start: Option<u64>, items: Vec<ListItem> },
    Quote { callout: Option<Callout>, blocks: Vec<Block> },
    /// Every footnote definition, in reference order, at the end of the document.
    Footnotes(Vec<Footnote>),
    Table(Table),
    Rule,
}

/// The inline content of one table cell.
pub type Cell = Vec<Inline>;

/// A table, by its columns' alignments and its cells.
#[derive(Debug, Default, PartialEq)]
pub struct Table {
    /// One entry per column, from the delimiter row.
    pub align: Vec<Align>,
    pub head: Vec<Cell>,
    pub rows: Vec<Vec<Cell>>,
}

/// A column's alignment in a table.
#[derive(Clone, Copy, Debug, Default, PartialEq, Eq, Structural)]
pub enum Align {
    #[default]
    Left,
    Center,
    Right,
}

/// One footnote definition, numbered by where it was first referenced.
#[derive(Debug, PartialEq)]
pub struct Footnote {
    pub number: usize,
    pub blocks: Vec<Block>,
}

/// One item of a list, and whether it carried a task checkbox.
#[derive(Debug, Default, PartialEq)]
pub struct ListItem {
    /// `None` for an ordinary item, `Some(done)` for `- [ ]` or `- [x]`.
    pub task: Option<bool>,
    pub blocks: Vec<Block>,
}

/// A GitHub alert: the kind named by `> [!NOTE]` and its siblings.
#[derive(Clone, Copy, Debug, PartialEq, Eq, Structural)]
pub enum Callout {
    Note,
    Tip,
    Important,
    Warning,
    Caution,
}

impl Callout {
    /// The word drawn above the quote, as a specification.
    pub open spec fn word(self) -> Seq<char> {
        match self {
            Callout::Note => "Note"@,
            Callout::Tip => "Tip"@,
            Callout::Important => "Important"@,
            Callout::Warning => "Warning"@,
            Callout::Caution => "Caution"@,
        }
    }

    /// The word drawn above the quote.
    pub fn label(self) -> (r: &'static str)
        ensures
            r@ == self.word(),
    {
        match self {
            Callout::Note => "Note",
            Callout::Tip => "Tip",
            Callout::Important => "Important",
            Callout::Warning => "Warning",
            Callout::Caution => "Caution",
        }
    }
}

/// Inline content, with emphasis already flattened onto each run.
#[derive(Debug, PartialEq)]
pub enum Inline {
    // markdown nests emphasis; bold inside italic is one run
    // that is both, which keeps a style stack out of layout
    Text { text: String, style: Style },
    /// Rendered as its alt text.
    Image { alt: String },
    /// A footnote reference, drawn as its number in brackets.
    Note { number: usize },
    Break,
}

/// How a run of text is drawn.
#[derive(Clone, Copy, Debug, Default, PartialEq, Eq, Structural)]
pub struct Style {
    pub bold: bool,
    pub italic: bool,
    pub code: bool,
    pub strike: bool,
    pub link: bool,
}

/// An `Inline`, with its text as characters.
#[verifier::ext_equal]
pub enum InlineModel {
    Text { text: Seq<char>, style: Style },
    Image { alt: Seq<char> },
    Note { number: nat },
    Break,
}

/// A `Block`, with its text as characters and its parts as sequences.
#[verifier::ext_equal]
pub enum BlockModel {
    Heading { level: u8, inlines: Seq<InlineModel> },
    Paragraph(Seq<InlineModel>),
    Code { lang: Option<Seq<char>>, lines: Seq<Seq<char>> },
    List { start: Option<u64>, items: Seq<ItemModel> },
    Quote { callout: Option<Callout>, blocks: Seq<BlockModel> },
    Footnotes(Seq<NoteModel>),
    Table(TableModel),
    Rule,
}

/// A `ListItem`.
#[verifier::ext_equal]
pub struct ItemModel {
    pub task: Option<bool>,
    pub blocks: Seq<BlockModel>,
}

/// A `Footnote`.
#[verifier::ext_equal]
pub struct NoteModel {
    pub number: nat,
    pub blocks: Seq<BlockModel>,
}

/// A `Table`.
#[verifier::ext_equal]
pub struct TableModel {
    pub align: Seq<Align>,
    pub head: Seq<Seq<InlineModel>>,
    pub rows: Seq<Seq<Seq<InlineModel>>>,
}

impl View for Inline {
    type V = InlineModel;

    open spec fn view(&self) -> InlineModel {
        match *self {
            Inline::Text { text, style } => InlineModel::Text { text: text@, style },
            Inline::Image { alt } => InlineModel::Image { alt: alt@ },
            Inline::Note { number } => InlineModel::Note { number: number as nat },
            Inline::Break => InlineModel::Break,
        }
    }
}

/// The models of a run of inlines.
pub open spec fn inline_models(s: Seq<Inline>) -> Seq<InlineModel> {
    s.map_values(|i: Inline| i@)
}

/// The models of a row's cells.
pub open spec fn cell_models(s: Seq<Vec<Inline>>) -> Seq<Seq<InlineModel>> {
    s.map_values(|c: Vec<Inline>| inline_models(c@))
}

/// The models of a table's rows.
pub open spec fn row_models(s: Seq<Vec<Vec<Inline>>>) -> Seq<Seq<Seq<InlineModel>>> {
    s.map_values(|r: Vec<Vec<Inline>>| cell_models(r@))
}

impl View for Table {
    type V = TableModel;

    open spec fn view(&self) -> TableModel {
        TableModel {
            align: self.align@,
            head: cell_models(self.head@),
            rows: row_models(self.rows@),
        }
    }
}

/// The model of a block.
pub open spec fn block_model(b: Block) -> BlockModel
    decreases b,
{
    match b {
        Block::Heading { level, inlines } => BlockModel::Heading {
            level,
            inlines: inline_models(inlines@),
        },
        Block::Paragraph(inlines) => BlockModel::Paragraph(inline_models(inlines@)),
        Block::Code { lang, lines } => BlockModel::Code {
            lang: event::opt_chars(lang),
            lines: text::strings(lines@),
        },
        Block::List { start, items } => BlockModel::List { start, items: item_models(items@) },
        Block::Quote { callout, blocks } => BlockModel::Quote {
            callout,
            blocks: block_models(blocks@),
        },
        Block::Footnotes(notes) => BlockModel::Footnotes(note_models(notes@)),
        Block::Table(t) => BlockModel::Table(t@),
        Block::Rule => BlockModel::Rule,
    }
}

/// The models of a run of blocks.
pub open spec fn block_models(s: Seq<Block>) -> Seq<BlockModel>
    decreases s,
{
    if s.len() == 0 {
        seq![]
    } else {
        block_models(s.drop_last()).push(block_model(s.last()))
    }
}

/// The models of a list's items.
pub open spec fn item_models(s: Seq<ListItem>) -> Seq<ItemModel>
    decreases s,
{
    if s.len() == 0 {
        seq![]
    } else {
        let last = s.last();
        item_models(s.drop_last()).push(
            ItemModel { task: last.task, blocks: block_models(last.blocks@) },
        )
    }
}

/// The models of a run of footnotes.
pub open spec fn note_models(s: Seq<Footnote>) -> Seq<NoteModel>
    decreases s,
{
    if s.len() == 0 {
        seq![]
    } else {
        let last = s.last();
        note_models(s.drop_last()).push(
            NoteModel { number: last.number as nat, blocks: block_models(last.blocks@) },
        )
    }
}

/// Blocks are modelled one by one.
pub proof fn lemma_block_models(s: Seq<Block>)
    ensures
        block_models(s).len() == s.len(),
        forall|i: int| 0 <= i < s.len() ==> #[trigger] block_models(s)[i] == block_model(s[i]),
    decreases s.len(),
{
    if s.len() > 0 {
        lemma_block_models(s.drop_last());
    }
}

/// Items are modelled one by one.
pub proof fn lemma_item_models(s: Seq<ListItem>)
    ensures
        item_models(s).len() == s.len(),
        forall|i: int|
            0 <= i < s.len() ==> #[trigger] item_models(s)[i] == (ItemModel {
                task: s[i].task,
                blocks: block_models(s[i].blocks@),
            }),
    decreases s.len(),
{
    if s.len() > 0 {
        lemma_item_models(s.drop_last());
    }
}

/// Footnotes are modelled one by one.
pub proof fn lemma_note_models(s: Seq<Footnote>)
    ensures
        note_models(s).len() == s.len(),
        forall|i: int|
            0 <= i < s.len() ==> #[trigger] note_models(s)[i] == (NoteModel {
                number: s[i].number as nat,
                blocks: block_models(s[i].blocks@),
            }),
    decreases s.len(),
{
    if s.len() > 0 {
        lemma_note_models(s.drop_last());
    }
}

impl View for Doc {
    type V = Seq<BlockModel>;

    open spec fn view(&self) -> Seq<BlockModel> {
        block_models(self.blocks@)
    }
}

/// The extensions a document is read with: tables, footnotes, strikethrough, task lists, both
/// styles of front matter and GitHub's alerts.
//
// front matter is a site generator's metadata rather
// than part of the document. parsing it is what allows
// it to be dropped: left off, the fence reads as a rule
// and the fields as a paragraph
pub const EXTENSIONS: u32 = 2 | 4 | 8 | 16 | 128 | 256 | 2048;

/// The block tree of a markdown text.
pub fn parse(text: &str) -> (r: Doc)
    ensures
        r@ == builder::State::empty().steps(event::markdown_steps(text@, EXTENSIONS)).finish(),
{
    builder::build(event::steps(text, EXTENSIONS))
}

} // verus!
