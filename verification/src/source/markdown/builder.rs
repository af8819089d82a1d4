//! The block tree, built one step at a time.

use vstd::prelude::*;

use crate::source::markdown::event;
use crate::source::markdown::event::{Closing, Opening, OpeningModel, Step, StepModel};
use crate::source::markdown::parse;
use crate::source::markdown::parse::{Block, BlockModel, Callout, Doc, Footnote, Inline, InlineModel, ItemModel, ListItem, NoteModel, Style, Table, TableModel};
use crate::source::markdown::url;
use crate::text;
use crate::text::{chars_of, push_chars, split_lines};

verus! {

/// What sort of container is open, for the block stack to close back into.
enum Open {
    Quote(Option<Callout>),
    Note(String),
    List { start: Option<u64>, items: Vec<ListItem> },
    Item { task: Option<bool> },
}

/// Which block the inlines arriving now belong to.
#[derive(Clone, Copy, PartialEq, Eq, Structural)]
pub enum Slot {
    Paragraph,
    Heading(u8),
    /// Between the start and the end of an image, where text is alt text.
    ImageAlt,
}

/// An open container.
#[verifier::ext_equal]
pub enum OpenModel {
    Quote(Option<Callout>),
    Note(Seq<char>),
    List { start: Option<u64>, items: Seq<ItemModel> },
    Item { task: Option<bool> },
}

/// Where reading a document stands.
#[verifier::ext_equal]
pub struct State {
    /// The blocks of every open container, the document's own first.
    pub levels: Seq<Seq<BlockModel>>,
    pub opens: Seq<OpenModel>,
    pub inlines: Seq<InlineModel>,
    pub slot: Option<Slot>,
    pub alt: Seq<char>,
    pub bold: nat,
    pub italic: nat,
    pub strike: nat,
    pub link: nat,
    pub code: Option<Seq<char>>,
    pub code_lang: Option<Seq<char>>,
    /// Whether the front matter is being read, whose text is dropped.
    pub meta: bool,
    /// Footnote labels in the order they were first referenced.
    pub notes: Seq<Seq<char>>,
    /// Footnote definitions in the order they were written.
    pub defs: Seq<(Seq<char>, Seq<BlockModel>)>,
    pub table: Option<TableModel>,
    /// Cells of the row being read.
    pub row: Seq<Seq<InlineModel>>,
}

/// A code block's text without the newline that belongs to its fence.
pub open spec fn code_body(s: Seq<char>) -> Seq<char> {
    if s.len() > 0 && s.last() == '\n' {
        s.drop_last()
    } else {
        s
    }
}

/// Where `note` goes in a run sorted by number: behind every note that does not follow it.
pub open spec fn insert_note(sorted: Seq<NoteModel>, note: NoteModel) -> Seq<NoteModel>
    decreases sorted.len(),
{
    if sorted.len() == 0 || sorted.last().number <= note.number {
        sorted.push(note)
    } else {
        insert_note(sorted.drop_last(), note).push(sorted.last())
    }
}

/// The notes by number, those that share one in the order they came.
pub open spec fn sorted_notes(notes: Seq<NoteModel>) -> Seq<NoteModel>
    decreases notes.len(),
{
    if notes.len() == 0 {
        seq![]
    } else {
        insert_note(sorted_notes(notes.drop_last()), notes.last())
    }
}

impl State {
    /// Before anything was read.
    pub open spec fn empty() -> State {
        State {
            levels: seq![],
            opens: seq![],
            inlines: seq![],
            slot: None,
            alt: seq![],
            bold: 0,
            italic: 0,
            strike: 0,
            link: 0,
            code: None,
            code_lang: None,
            meta: false,
            notes: seq![],
            defs: seq![],
            table: None,
            row: seq![],
        }
    }

    /// A block joins the innermost container.
    pub open spec fn push(self, b: BlockModel) -> State {
        if self.levels.len() == 0 {
            self
        } else {
            State {
                levels: self.levels.drop_last().push(self.levels.last().push(b)),
                ..self
            }
        }
    }

    /// Inlines that no block asked for begin a paragraph.
    pub open spec fn open_inlines(self) -> State {
        if self.slot is None {
            State { slot: Some(Slot::Paragraph), ..self }
        } else {
            self
        }
    }

    pub open spec fn push_inline(self, i: InlineModel) -> State {
        let s = self.open_inlines();
        State { inlines: s.inlines.push(i), ..s }
    }

    /// A run of text; one that agrees with the run before it on style continues it.
    pub open spec fn run(self, t: Seq<char>, style: Style) -> State {
        if t.len() == 0 {
            self
        } else {
            let s = self.open_inlines();
            let joined = match s.inlines.last() {
                InlineModel::Text { text, style: last } => if s.inlines.len() > 0 && last == style {
                    Some(text)
                } else {
                    None
                },
                _ => None,
            };
            match joined {
                Some(text) => State {
                    inlines: s.inlines.drop_last().push(InlineModel::Text { text: text + t, style }),
                    ..s
                },
                None => State { inlines: s.inlines.push(InlineModel::Text { text: t, style }), ..s },
            }
        }
    }

    /// Prose, with every bare URL in it styled as a link.
    pub open spec fn prose(self, t: Seq<char>, style: Style) -> State
        decreases t.len(),
    {
        match url::next_url(t) {
            Some((at, end)) => if 0 <= at < end <= t.len() {
                self.run(t.take(at), style).run(
                    t.subrange(at, end),
                    Style { link: true, ..style },
                ).prose(t.skip(end), style)
            } else {
                self.run(t, style)
            },
            None => self.run(t, style),
        }
    }

    /// Text, wherever it belongs: an image's alt text, a code span or a link, or prose.
    pub open spec fn text(self, t: Seq<char>, style: Style) -> State {
        if self.slot == Some(Slot::ImageAlt) {
            State { alt: self.alt + t, ..self }
        } else if style.code || style.link {
            self.run(t, style)
        } else {
            self.prose(t, style)
        }
    }

    /// The style of text that arrives now.
    pub open spec fn style(self) -> Style {
        Style {
            bold: self.bold > 0,
            italic: self.italic > 0,
            code: false,
            strike: self.strike > 0,
            link: self.link > 0,
        }
    }

    /// A label is given the next number where it has none.
    pub open spec fn noted(self, label: Seq<char>) -> State {
        if self.notes.contains(label) {
            self
        } else {
            State { notes: self.notes.push(label), ..self }
        }
    }

    /// The number of a label that has one: its place among the labels, from one.
    pub open spec fn number(self, label: Seq<char>) -> nat {
        (self.notes.index_of_first(label)->0 + 1) as nat
    }

    /// Inlines that no block closed become a paragraph.
    pub open spec fn flush(self) -> State {
        if self.inlines.len() == 0 {
            self
        } else {
            State { inlines: seq![], slot: None, ..self }.push(
                BlockModel::Paragraph(self.inlines),
            )
        }
    }

    /// The blocks of the innermost container.
    pub open spec fn inner(self) -> Seq<BlockModel> {
        if self.levels.len() == 0 {
            seq![]
        } else {
            self.levels.last()
        }
    }

    /// A container is left, and with it its blocks.
    pub open spec fn leave(self) -> State {
        State {
            levels: if self.levels.len() == 0 {
                self.levels
            } else {
                self.levels.drop_last()
            },
            opens: if self.opens.len() == 0 {
                self.opens
            } else {
                self.opens.drop_last()
            },
            ..self
        }
    }

    /// A container is entered.
    pub open spec fn enter(self, o: OpenModel) -> State {
        State { opens: self.opens.push(o), levels: self.levels.push(seq![]), ..self }
    }

    /// An element opens.
    pub open spec fn start(self, t: OpeningModel) -> State {
        match t {
            OpeningModel::Paragraph => State { slot: Some(Slot::Paragraph), ..self },
            OpeningModel::Heading(level) => State { slot: Some(Slot::Heading(level)), ..self },
            OpeningModel::CodeBlock(lang) => State {
                code: Some(seq![]),
                code_lang: lang,
                ..self
            },
            OpeningModel::BlockQuote(callout) => self.enter(OpenModel::Quote(callout)),
            OpeningModel::List(start) => State {
                opens: self.opens.push(OpenModel::List { start, items: seq![] }),
                ..self
            },
            OpeningModel::Item => self.enter(OpenModel::Item { task: None }),
            OpeningModel::Emphasis => State { italic: self.italic + 1, ..self },
            OpeningModel::Strong => State { bold: self.bold + 1, ..self },
            OpeningModel::Strikethrough => State { strike: self.strike + 1, ..self },
            OpeningModel::Link => State { link: self.link + 1, ..self },
            OpeningModel::Image => State { slot: Some(Slot::ImageAlt), alt: seq![], ..self },
            OpeningModel::MetadataBlock => State { meta: true, ..self },
            OpeningModel::Table(align) => State {
                table: Some(TableModel { align, head: seq![], rows: seq![] }),
                ..self
            },
            OpeningModel::TableCell => State { slot: Some(Slot::Paragraph), ..self },
            OpeningModel::FootnoteDefinition(label) => self.enter(OpenModel::Note(label)),
            OpeningModel::Other => self,
        }
    }

    /// An item joins the list it stands in.
    pub open spec fn push_item(self, item: ItemModel) -> State {
        match self.opens.last() {
            OpenModel::List { start, items } => if self.opens.len() > 0 {
                State {
                    opens: self.opens.drop_last().push(
                        OpenModel::List { start, items: items.push(item) },
                    ),
                    ..self
                }
            } else {
                self
            },
            _ => self,
        }
    }

    /// The innermost open container.
    pub open spec fn top(self) -> Option<OpenModel> {
        if self.opens.len() == 0 {
            None
        } else {
            Some(self.opens.last())
        }
    }

    /// An element closes.
    pub open spec fn end(self, t: Closing) -> State {
        match t {
            Closing::Paragraph => {
                let s = State { inlines: seq![], slot: None, ..self };
                if self.inlines.len() == 0 {
                    s
                } else {
                    s.push(BlockModel::Paragraph(self.inlines))
                }
            },
            Closing::Heading(level) => State { inlines: seq![], slot: None, ..self }.push(
                BlockModel::Heading { level, inlines: self.inlines },
            ),
            Closing::CodeBlock => {
                let body = match self.code {
                    Some(c) => c,
                    None => seq![],
                };
                State { code: None, code_lang: None, ..self }.push(
                    BlockModel::Code { lang: self.code_lang, lines: text::lines_of(code_body(body)) },
                )
            },
            Closing::BlockQuote => self.leave().push(
                BlockModel::Quote {
                    callout: match self.top() {
                        Some(OpenModel::Quote(c)) => c,
                        _ => None,
                    },
                    blocks: self.inner(),
                },
            ),
            Closing::Item => {
                let s = self.flush();
                let task = match s.top() {
                    Some(OpenModel::Item { task }) => task,
                    _ => None,
                };
                s.leave().push_item(ItemModel { task, blocks: s.inner() })
            },
            Closing::List => {
                let s = State {
                    opens: if self.opens.len() == 0 {
                        self.opens
                    } else {
                        self.opens.drop_last()
                    },
                    ..self
                };
                match self.top() {
                    Some(OpenModel::List { start, items }) => s.push(
                        BlockModel::List { start, items },
                    ),
                    _ => s,
                }
            },
            Closing::Emphasis => State { italic: less_one(self.italic), ..self },
            Closing::Strong => State { bold: less_one(self.bold), ..self },
            Closing::Strikethrough => State { strike: less_one(self.strike), ..self },
            Closing::Link => State { link: less_one(self.link), ..self },
            Closing::Image => State { alt: seq![], slot: None, ..self }.push_inline(
                InlineModel::Image { alt: self.alt },
            ),
            Closing::MetadataBlock => State { meta: false, ..self },
            Closing::TableCell => State {
                inlines: seq![],
                slot: None,
                row: self.row.push(self.inlines),
                ..self
            },
            Closing::TableHead => State {
                row: seq![],
                table: match self.table {
                    Some(t) => Some(TableModel { head: self.row, ..t }),
                    None => None,
                },
                ..self
            },
            Closing::TableRow => State {
                row: seq![],
                table: match self.table {
                    Some(t) => Some(TableModel { rows: t.rows.push(self.row), ..t }),
                    None => None,
                },
                ..self
            },
            Closing::Table => match self.table {
                Some(t) => State { table: None, ..self }.push(BlockModel::Table(t)),
                None => self,
            },
            Closing::FootnoteDefinition => {
                let s = self.flush();
                let left = s.leave();
                match s.top() {
                    Some(OpenModel::Note(label)) => State {
                        defs: left.defs.push((label, s.inner())),
                        ..left
                    },
                    _ => left,
                }
            },
            Closing::Other => self,
        }
    }

    /// The document itself is a container, open from the first step on.
    pub open spec fn begun(self) -> State {
        if self.levels.len() == 0 {
            State { levels: seq![seq![]], ..self }
        } else {
            self
        }
    }

    /// One step is read.
    pub open spec fn step(self, e: StepModel) -> State {
        let s = self.begun();
        match e {
            StepModel::Start(t) => s.start(t),
            StepModel::End(t) => s.end(t),
            StepModel::Text(t) => if s.meta {
                s
            } else {
                match s.code {
                    Some(c) => State { code: Some(c + t), ..s },
                    None => s.text(t, s.style()),
                }
            },
            StepModel::Code(t) => s.text(t, Style { code: true, ..s.style() }),
            StepModel::Html(t) => s,
            StepModel::InlineHtml(t) => s.text(t, s.style()),
            StepModel::SoftBreak => s.text(seq![' '], s.style()),
            StepModel::HardBreak => s.push_inline(InlineModel::Break),
            StepModel::Rule => s.push(BlockModel::Rule),
            StepModel::FootnoteReference(label) => {
                let n = s.noted(label);
                n.push_inline(InlineModel::Note { number: n.number(label) })
            },
            StepModel::TaskListMarker(done) => match s.top() {
                Some(OpenModel::Item { task }) => State {
                    opens: s.opens.drop_last().push(OpenModel::Item { task: Some(done) }),
                    ..s
                },
                _ => s,
            },
            StepModel::Other => s,
        }
    }

    /// The steps are read, first to last.
    pub open spec fn steps(self, es: Seq<StepModel>) -> State
        decreases es.len(),
    {
        if es.len() == 0 {
            self
        } else {
            self.steps(es.drop_last()).step(es.last())
        }
    }

    /// The innermost container is no longer open.
    pub open spec fn popped(self) -> State {
        State { opens: self.opens.drop_last(), ..self }
    }

    /// The innermost container's blocks go to the one around it.
    pub open spec fn spilled(self) -> State {
        let outer = self.levels.drop_last();
        State { levels: outer.drop_last().push(outer.last() + self.inner()), ..self }
    }

    /// The innermost of the containers that nothing closed gives up what it held: a list its finished
    /// items, an item what it has so far to its list, a quote its blocks as a quote. What has no
    /// container of its own to go into goes to the one around it.
    pub open spec fn given_up(self) -> State {
        let s = if self.opens.len() == 0 {
            self
        } else {
            self.popped()
        };
        match self.top() {
            Some(OpenModel::List { start, items }) => s.push(BlockModel::List { start, items }),
            open => if self.levels.len() <= 1 {
                s
            } else {
                let left = State { levels: s.levels.drop_last(), ..s };
                match (open, s.top()) {
                    (Some(OpenModel::Quote(callout)), _) => left.push(
                        BlockModel::Quote { callout, blocks: self.inner() },
                    ),
                    (Some(OpenModel::Item { task }), Some(OpenModel::List { start, items })) =>
                        left.push_item(ItemModel { task, blocks: self.inner() }),
                    _ => s.spilled(),
                }
            },
        }
    }

    /// Containers that nothing closed give up what they held, the innermost first.
    pub open spec fn unwound(self) -> State
        decreases self.opens.len() + self.levels.len(),
    {
        if self.opens.len() == 0 && self.levels.len() <= 1 {
            self
        } else {
            self.given_up().unwound()
        }
    }

    /// The definitions of footnotes under their labels' numbers, in the order they were written;
    /// a label that nothing referenced is numbered after all that were.
    pub open spec fn numbered(self, n: nat) -> (State, Seq<NoteModel>)
        decreases n,
    {
        if n == 0 || n > self.defs.len() {
            (self, seq![])
        } else {
            let (s, notes) = self.numbered((n - 1) as nat);
            let (label, blocks) = self.defs[n - 1];
            let t = s.noted(label);
            (t, notes.push(NoteModel { number: t.number(label), blocks }))
        }
    }

    /// The footnotes in reference order, those never referenced last.
    pub open spec fn footnotes(self) -> Seq<NoteModel> {
        sorted_notes(self.numbered(self.defs.len()).1)
    }

    /// The document, once everything was read.
    pub open spec fn finish(self) -> Seq<BlockModel> {
        let s = self.flush().unwound();
        let footnotes = s.footnotes();
        if footnotes.len() == 0 {
            s.inner()
        } else {
            s.inner().push(BlockModel::Rule).push(BlockModel::Footnotes(footnotes))
        }
    }
}

/// One less, but not below nothing.
pub open spec fn less_one(n: nat) -> nat {
    if n == 0 {
        0
    } else {
        (n - 1) as nat
    }
}

/// The document being built.
pub struct Builder {
    levels: Vec<Vec<Block>>,
    opens: Vec<Open>,
    inlines: Vec<Inline>,
    slot: Option<Slot>,
    alt: String,
    // emphasis nests, so these count rather than toggle
    bold: usize,
    italic: usize,
    strike: usize,
    link: usize,
    code: Option<String>,
    code_lang: Option<String>,
    meta: bool,
    notes: Vec<String>,
    defs: Vec<(String, Vec<Block>)>,
    table: Option<Table>,
    row: Vec<Vec<Inline>>,
}

spec fn open_model(o: Open) -> OpenModel {
    match o {
        Open::Quote(c) => OpenModel::Quote(c),
        Open::Note(label) => OpenModel::Note(label@),
        Open::List { start, items } => OpenModel::List { start, items: parse::item_models(items@) },
        Open::Item { task } => OpenModel::Item { task },
    }
}

spec fn level_models(s: Seq<Vec<Block>>) -> Seq<Seq<BlockModel>> {
    s.map_values(|l: Vec<Block>| parse::block_models(l@))
}

spec fn open_models(s: Seq<Open>) -> Seq<OpenModel> {
    s.map_values(|o: Open| open_model(o))
}

spec fn def_models(s: Seq<(String, Vec<Block>)>) -> Seq<(Seq<char>, Seq<BlockModel>)> {
    s.map_values(|d: (String, Vec<Block>)| (d.0@, parse::block_models(d.1@)))
}

spec fn table_model(t: Option<Table>) -> Option<TableModel> {
    match t {
        Some(t) => Some(t@),
        None => None,
    }
}

impl View for Builder {
    type V = State;

    closed spec fn view(&self) -> State {
        State {
            levels: level_models(self.levels@),
            opens: open_models(self.opens@),
            inlines: parse::inline_models(self.inlines@),
            slot: self.slot,
            alt: self.alt@,
            bold: self.bold as nat,
            italic: self.italic as nat,
            strike: self.strike as nat,
            link: self.link as nat,
            code: event::opt_chars(self.code),
            code_lang: event::opt_chars(self.code_lang),
            meta: self.meta,
            notes: text::strings(self.notes@),
            defs: def_models(self.defs@),
            table: table_model(self.table),
            row: parse::cell_models(self.row@),
        }
    }
}

/// A note goes in front of those with a greater number and behind all others.
proof fn lemma_insert_note(sorted: Seq<NoteModel>, note: NoteModel, k: int)
    requires
        0 <= k <= sorted.len(),
        forall|j: int| k <= j < sorted.len() ==> sorted[j].number > note.number,
        k > 0 ==> sorted[k - 1].number <= note.number,
    ensures
        insert_note(sorted, note) == sorted.insert(k, note),
    decreases sorted.len(),
{
    if k == sorted.len() {
        assert(sorted.insert(k, note) =~= sorted.push(note));
    } else {
        let shorter = sorted.drop_last();
        assert forall|j: int| k <= j < shorter.len() implies shorter[j].number > note.number by {
            assert(shorter[j] == sorted[j]);
        }
        lemma_insert_note(shorter, note, k);
        assert(sorted.insert(k, note) =~= shorter.insert(k, note).push(sorted.last()));
    }
}

/// Put `note` where its number belongs.
fn place_note(sorted: &mut Vec<Footnote>, note: Footnote)
    ensures
        parse::note_models(final(sorted)@) == insert_note(
            parse::note_models(old(sorted)@),
            NoteModel { number: note.number as nat, blocks: parse::block_models(note.blocks@) },
        ),
{
    let mut k: usize = sorted.len();
    while k > 0 && sorted[k - 1].number > note.number
        invariant
            k <= sorted@.len(),
            *sorted == *old(sorted),
            forall|j: int| k <= j < sorted@.len() ==> sorted@[j].number > note.number,
        decreases k,
    {
        k -= 1;
    }
    let ghost model = NoteModel {
        number: note.number as nat,
        blocks: parse::block_models(note.blocks@),
    };
    proof {
        parse::lemma_note_models(sorted@);
        let models = parse::note_models(sorted@);
        assert forall|j: int| k <= j < models.len() implies models[j].number > model.number by {
            assert(models[j].number == sorted@[j].number);
        }
        assert(k > 0 ==> models[k - 1].number == sorted@[k - 1].number);
        lemma_insert_note(models, model, k as int);
    }
    sorted.insert(k, note);
    proof {
        parse::lemma_note_models(sorted@);
        assert(parse::note_models(sorted@) =~= parse::note_models(old(sorted)@).insert(
            k as int,
            model,
        ));
    }
}

/// A step deepens emphasis by one at most.
proof fn lemma_depth(s: State, e: StepModel)
    ensures
        s.step(e).bold <= s.bold + 1,
        s.step(e).italic <= s.italic + 1,
        s.step(e).strike <= s.strike + 1,
        s.step(e).link <= s.link + 1,
{
    match e {
        StepModel::Text(t) => {
            lemma_prose_depth(s.begun(), t, s.begun().style());
        },
        StepModel::InlineHtml(t) => {
            lemma_prose_depth(s.begun(), t, s.begun().style());
        },
        StepModel::SoftBreak => {
            lemma_prose_depth(s.begun(), seq![' '], s.begun().style());
        },
        _ => {},
    }
}

proof fn lemma_prose_depth(s: State, t: Seq<char>, style: Style)
    ensures
        s.prose(t, style).bold == s.bold,
        s.prose(t, style).italic == s.italic,
        s.prose(t, style).strike == s.strike,
        s.prose(t, style).link == s.link,
    decreases t.len(),
{
    match url::next_url(t) {
        Some((at, end)) => if 0 <= at < end <= t.len() {
            lemma_prose_depth(
                s.run(t.take(at), style).run(t.subrange(at, end), Style { link: true, ..style }),
                t.skip(end),
                style,
            );
        },
        None => {},
    }
}

/// A footnote's number does not depend on what comes to be defined.
proof fn lemma_numbered(s: State, n: nat)
    requires
        n <= s.defs.len(),
    ensures
        s.numbered(n).0 == (State { notes: s.numbered(n).0.notes, ..s }),
        s.numbered(n).1.len() == n,
        s.notes.is_prefix_of(s.numbered(n).0.notes),
    decreases n,
{
    if n > 0 {
        lemma_numbered(s, (n - 1) as nat);
    }
}

impl Builder {
    /// Before anything was read.
    pub fn new() -> (r: Self)
        ensures
            r@ == State::empty(),
    {
        Builder {
            levels: Vec::new(),
            opens: Vec::new(),
            inlines: Vec::new(),
            slot: None,
            alt: String::new(),
            bold: 0,
            italic: 0,
            strike: 0,
            link: 0,
            code: None,
            code_lang: None,
            meta: false,
            notes: Vec::new(),
            defs: Vec::new(),
            table: None,
            row: Vec::new(),
        }
    }

    fn push(&mut self, block: Block)
        ensures
            final(self)@ == old(self)@.push(parse::block_model(block)),
    {
        match self.levels.pop() {
            Some(mut level) => {
                let ghost before = level@;
                level.push(block);
                assert(level@.drop_last() =~= before);
                self.levels.push(level);
                assert(self@.levels =~= old(self)@.push(parse::block_model(block)).levels);
            },
            None => {},
        }
    }

    /// Open an implicit paragraph if no block is taking inlines.
    fn open_inlines(&mut self)
        ensures
            final(self)@ == old(self)@.open_inlines(),
    {
        // a tight list item emits no paragraph events
        if self.slot.is_none() {
            self.slot = Some(Slot::Paragraph);
        }
    }

    fn push_inline(&mut self, i: Inline)
        ensures
            final(self)@ == old(self)@.push_inline(i@),
    {
        self.open_inlines();
        let ghost before = self.inlines@;
        self.inlines.push(i);
        assert(parse::inline_models(self.inlines@) =~= parse::inline_models(before).push(i@));
    }

    fn run(&mut self, t: &[char], style: Style)
        ensures
            final(self)@ == old(self)@.run(t@, style),
    {
        if t.len() == 0 {
            return;
        }
        self.open_inlines();
        let ghost before = self.inlines@;

        // runs that agree on style merge into one
        let fresh = match self.inlines.pop() {
            Some(Inline::Text { mut text, style: last }) => if last == style {
                push_chars(&mut text, t);
                Inline::Text { text, style }
            } else {
                self.inlines.push(Inline::Text { text, style: last });
                assert(self.inlines@ =~= before);
                let mut text = String::new();
                push_chars(&mut text, t);
                Inline::Text { text, style }
            },
            Some(other) => {
                self.inlines.push(other);
                assert(self.inlines@ =~= before);
                let mut text = String::new();
                push_chars(&mut text, t);
                Inline::Text { text, style }
            },
            None => {
                let mut text = String::new();
                push_chars(&mut text, t);
                Inline::Text { text, style }
            },
        };
        let ghost kept = self.inlines@;
        self.inlines.push(fresh);
        assert(parse::inline_models(self.inlines@) =~= parse::inline_models(kept).push(fresh@));
        assert(self@.inlines =~= old(self)@.run(t@, style).inlines);
    }

    /// Prose, with every bare URL in it styled as a link.
    fn prose(&mut self, t: Vec<char>, style: Style)
        ensures
            final(self)@ == old(self)@.prose(t@, style),
    {
        let linked = Style { link: true, ..style };
        let mut rest = t;
        loop
            invariant
                linked == (Style { link: true, ..style }),
                self@.prose(rest@, style) == old(self)@.prose(t@, style),
            ensures
                self@.run(rest@, style) == old(self)@.prose(t@, style),
            decreases rest@.len(),
        {
            match url::split_url(&rest) {
                Some((at, end)) => {
                    let ghost whole = rest@;
                    let tail = rest.split_off(end);
                    let found = rest.split_off(at);
                    assert(rest@ =~= whole.take(at as int));
                    assert(found@ =~= whole.subrange(at as int, end as int));
                    assert(tail@ =~= whole.skip(end as int));
                    self.run(&rest, style);
                    self.run(&found, linked);
                    rest = tail;
                },
                None => {
                    break;
                },
            }
        }
        self.run(&rest, style);
    }

    fn text(&mut self, t: &str, style: Style)
        ensures
            final(self)@ == old(self)@.text(t@, style),
    {
        if let Some(Slot::ImageAlt) = self.slot {
            self.alt.push_str(t);
            return;
        }
        let t = chars_of(t);

        // a url inside a code span is not a link, and one
        // inside a link already carries the style
        if style.code || style.link {
            self.run(&t, style);
        } else {
            self.prose(t, style);
        }
    }

    fn style(&self) -> (r: Style)
        ensures
            r == self@.style(),
    {
        Style {
            bold: self.bold > 0,
            italic: self.italic > 0,
            code: false,
            strike: self.strike > 0,
            link: self.link > 0,
        }
    }

    /// The number `label` is drawn as, assigning the next one if it is new.
    fn note_number(&mut self, label: &String) -> (r: usize)
        ensures
            final(self)@ == old(self)@.noted(label@),
            r == final(self)@.number(label@),
    {
        let mut i: usize = 0;
        while i < self.notes.len()
            invariant
                i <= self.notes@.len(),
                *self == *old(self),
                forall|j: int| 0 <= j < i ==> self@.notes[j] != label@,
            decreases self.notes.len() - i,
        {
            if self.notes[i] == *label {
                assert(self@.notes[i as int] == label@);
                proof {
                    self@.notes.index_of_first_ensures(label@);
                }
                return i + 1;
            }
            i += 1;
        }
        assert(!self@.notes.contains(label@));
        let ghost before = self.notes@;
        self.notes.push(label.clone());
        assert(text::strings(self.notes@) =~= text::strings(before).push(label@));
        proof {
            let notes = self@.notes;
            assert(notes[notes.len() - 1] == label@);
            notes.index_of_first_ensures(label@);
            assert(forall|j: int| 0 <= j < notes.len() - 1 ==> notes[j] == old(self)@.notes[j]);
        }
        self.notes.len()
    }

    /// What the inlines were, leaving none.
    fn take_inlines(&mut self) -> (r: Vec<Inline>)
        ensures
            parse::inline_models(r@) == old(self)@.inlines,
            r@.len() == old(self)@.inlines.len(),
            final(self)@ == (State { inlines: seq![], slot: None, ..old(self)@ }),
    {
        let mut inlines: Vec<Inline> = Vec::new();
        std::mem::swap(&mut inlines, &mut self.inlines);
        self.slot = None;
        inlines
    }

    fn flush_loose_inlines(&mut self)
        ensures
            final(self)@ == old(self)@.flush(),
    {
        if self.inlines.len() > 0 {
            let inlines = self.take_inlines();
            self.push(Block::Paragraph(inlines));
        }
    }

    /// What the row's cells were, leaving none.
    fn take_row(&mut self) -> (r: Vec<Vec<Inline>>)
        ensures
            parse::cell_models(r@) == old(self)@.row,
            final(self)@ == (State { row: seq![], ..old(self)@ }),
    {
        let mut row: Vec<Vec<Inline>> = Vec::new();
        std::mem::swap(&mut row, &mut self.row);
        row
    }

    /// A container is entered.
    fn enter(&mut self, o: Open)
        ensures
            final(self)@ == old(self)@.enter(open_model(o)),
    {
        let ghost (levels, opens) = (self.levels@, self.opens@);
        let level: Vec<Block> = Vec::new();
        self.levels.push(level);
        self.opens.push(o);
        assert(open_models(self.opens@) =~= open_models(opens).push(open_model(o)));
        assert(level_models(self.levels@) =~= level_models(levels).push(seq![]));
    }

    /// A container is left: what it held, and what it was.
    fn leave(&mut self) -> (r: (Vec<Block>, Option<Open>))
        ensures
            final(self)@ == old(self)@.leave(),
            parse::block_models(r.0@) == old(self)@.inner(),
            r.1 is Some == old(self)@.top() is Some,
            r.1 matches Some(o) ==> old(self)@.top() == Some(open_model(o)),
    {
        let blocks = match self.levels.pop() {
            Some(blocks) => blocks,
            None => Vec::new(),
        };
        let open = self.opens.pop();
        assert(self@.levels =~= old(self)@.leave().levels);
        assert(self@.opens =~= old(self)@.leave().opens);
        (blocks, open)
    }

    fn start(&mut self, t: Opening)
        requires
            old(self)@.bold < usize::MAX,
            old(self)@.italic < usize::MAX,
            old(self)@.strike < usize::MAX,
            old(self)@.link < usize::MAX,
        ensures
            final(self)@ == old(self)@.start(t@),
    {
        match t {
            Opening::Paragraph => {
                self.slot = Some(Slot::Paragraph);
            },
            Opening::Heading(level) => {
                self.slot = Some(Slot::Heading(level));
            },
            Opening::CodeBlock(lang) => {
                self.code = Some(String::new());
                self.code_lang = lang;
            },
            Opening::BlockQuote(callout) => {
                self.enter(Open::Quote(callout));
            },
            Opening::List(start) => {
                let o = Open::List { start, items: Vec::new() };
                let ghost opens = self.opens@;
                self.opens.push(o);
                assert(open_models(self.opens@) =~= open_models(opens).push(open_model(o)));
            },
            Opening::Item => {
                self.enter(Open::Item { task: None });
            },
            Opening::Emphasis => {
                self.italic += 1;
            },
            Opening::Strong => {
                self.bold += 1;
            },
            Opening::Strikethrough => {
                self.strike += 1;
            },
            Opening::Link => {
                self.link += 1;
            },
            Opening::Image => {
                self.slot = Some(Slot::ImageAlt);
                self.alt = String::new();
            },
            Opening::MetadataBlock => {
                self.meta = true;
            },
            Opening::Table(align) => {
                self.table = Some(Table { align, head: Vec::new(), rows: Vec::new() });
            },

            // a cell's content arrives as ordinary inlines,
            // so it needs somewhere for them to land
            Opening::TableCell => {
                self.slot = Some(Slot::Paragraph);
            },

            // a definition is written wherever the author
            // put it and read at the end, so its blocks are
            // diverted rather than pushed
            Opening::FootnoteDefinition(label) => {
                self.enter(Open::Note(label));
            },
            Opening::Other => {},
        }
    }

    /// An item joins the list it stands in.
    fn push_item(&mut self, item: ListItem)
        ensures
            final(self)@ == old(self)@.push_item(
                ItemModel { task: item.task, blocks: parse::block_models(item.blocks@) },
            ),
    {
        let ghost before = self.opens@;
        match self.opens.pop() {
            Some(Open::List { start, mut items }) => {
                let ghost had = items@;
                items.push(item);
                assert(items@.drop_last() =~= had);
                let o = Open::List { start, items };
                let ghost kept = self.opens@;
                self.opens.push(o);
                assert(open_models(self.opens@) =~= open_models(kept).push(open_model(o)));
                assert(open_models(kept) =~= open_models(before).drop_last());
            },
            Some(other) => {
                self.opens.push(other);
                assert(self.opens@ =~= before);
            },
            None => {},
        }
    }

    /// The row being read becomes the table's head.
    fn end_head(&mut self)
        ensures
            final(self)@ == old(self)@.end(Closing::TableHead),
    {
        let row = self.take_row();
        match self.table.take() {
            Some(mut t) => {
                t.head = row;
                self.table = Some(t);
            },
            None => {},
        }
    }

    /// The row being read becomes the table's last.
    fn end_row(&mut self)
        ensures
            final(self)@ == old(self)@.end(Closing::TableRow),
    {
        let row = self.take_row();
        match self.table.take() {
            Some(mut t) => {
                let ghost rows = t.rows@;
                t.rows.push(row);
                assert(parse::row_models(t.rows@) =~= parse::row_models(rows).push(
                    parse::cell_models(row@),
                ));
                self.table = Some(t);
            },
            None => {},
        }
    }

    fn end_code(&mut self)
        ensures
            final(self)@ == old(self)@.end(Closing::CodeBlock),
    {
        let body = match self.code.take() {
            Some(body) => chars_of(body.as_str()),
            None => Vec::new(),
        };

        // a trailing newline is the fence's, not a blank last line
        let mut n: usize = body.len();
        if n > 0 && body[n - 1] == '\n' {
            n -= 1;
        }
        assert(body@.take(n as int) =~= code_body(body@));
        let lines = split_lines(&body, n);
        let lang = self.code_lang.take();
        self.push(Block::Code { lang, lines });
    }

    fn end(&mut self, t: Closing)
        ensures
            final(self)@ == old(self)@.end(t),
    {
        match t {
            Closing::Paragraph => {
                let inlines = self.take_inlines();
                if inlines.len() > 0 {
                    self.push(Block::Paragraph(inlines));
                }
            },
            Closing::Heading(level) => {
                let inlines = self.take_inlines();
                self.push(Block::Heading { level, inlines });
            },
            Closing::CodeBlock => {
                self.end_code();
            },
            Closing::BlockQuote => {
                let (blocks, open) = self.leave();
                let callout = match open {
                    Some(Open::Quote(c)) => c,
                    _ => None,
                };
                self.push(Block::Quote { callout, blocks });
            },
            Closing::Item => {
                self.flush_loose_inlines();
                let (blocks, open) = self.leave();
                let task = match open {
                    Some(Open::Item { task }) => task,
                    _ => None,
                };
                self.push_item(ListItem { task, blocks });
            },
            Closing::List => {
                let open = self.opens.pop();
                assert(self@.opens =~= old(self)@.leave().opens);
                match open {
                    Some(Open::List { start, items }) => {
                        self.push(Block::List { start, items });
                    },
                    _ => {},
                }
            },
            Closing::Emphasis => {
                self.italic = self.italic.saturating_sub(1);
            },
            Closing::Strong => {
                self.bold = self.bold.saturating_sub(1);
            },
            Closing::Strikethrough => {
                self.strike = self.strike.saturating_sub(1);
            },
            Closing::Link => {
                self.link = self.link.saturating_sub(1);
            },
            Closing::Image => {
                let mut alt = String::new();
                std::mem::swap(&mut alt, &mut self.alt);
                self.slot = None;
                self.push_inline(Inline::Image { alt });
            },
            Closing::MetadataBlock => {
                self.meta = false;
            },
            Closing::TableCell => {
                let cell = self.take_inlines();
                let ghost row = self.row@;
                self.row.push(cell);
                assert(parse::cell_models(self.row@) =~= parse::cell_models(row).push(
                    parse::inline_models(cell@),
                ));
            },

            // the head emits its cells directly, with no row
            // of its own around them
            Closing::TableHead => {
                self.end_head();
            },
            Closing::TableRow => {
                self.end_row();
            },
            Closing::Table => {
                match self.table.take() {
                    Some(t) => {
                        self.push(Block::Table(t));
                    },
                    None => {},
                }
            },
            Closing::FootnoteDefinition => {
                self.flush_loose_inlines();
                let (blocks, open) = self.leave();
                match open {
                    Some(Open::Note(label)) => {
                        let ghost defs = self.defs@;
                        self.defs.push((label, blocks));
                        assert(def_models(self.defs@) =~= def_models(defs).push(
                            (label@, parse::block_models(blocks@)),
                        ));
                    },
                    _ => {},
                }
            },
            Closing::Other => {},
        }
    }

    /// Read one step.
    pub fn event(&mut self, e: Step)
        requires
            old(self)@.bold < usize::MAX,
            old(self)@.italic < usize::MAX,
            old(self)@.strike < usize::MAX,
            old(self)@.link < usize::MAX,
        ensures
            final(self)@ == old(self)@.step(e@),
    {
        if self.levels.len() == 0 {
            let level: Vec<Block> = Vec::new();
            self.levels.push(level);
            assert(self@.levels =~= old(self)@.begun().levels);
        }
        let style = self.style();
        match e {
            Step::Start(t) => {
                self.start(t);
            },
            Step::End(t) => {
                self.end(t);
            },
            Step::Text(t) => {
                if !self.meta {
                    // a fenced block arrives as several texts and
                    // must be rejoined before splitting on newlines
                    match self.code.take() {
                        Some(mut code) => {
                            code.push_str(t.as_str());
                            self.code = Some(code);
                        },
                        None => {
                            self.text(t.as_str(), style);
                        },
                    }
                }
            },
            Step::Code(t) => {
                self.text(t.as_str(), Style { code: true, ..style });
            },

            // the generated page goes to a parser, so passing
            // markup through would let a document inject elements
            Step::Html(_) => {},
            Step::InlineHtml(t) => {
                self.text(t.as_str(), style);
            },

            // everything is wrapped anew, so a soft break is just a space
            Step::SoftBreak => {
                proof {
                    reveal_strlit(" ");
                    assert(" "@ =~= seq![' ']);
                }
                self.text(" ", style);
            },
            Step::HardBreak => {
                self.push_inline(Inline::Break);
            },
            Step::Rule => {
                self.push(Block::Rule);
            },
            Step::FootnoteReference(label) => {
                let number = self.note_number(&label);
                self.push_inline(Inline::Note { number });
            },

            // the marker arrives inside the item it belongs
            // to, so it is recorded on the open item rather
            // than placed among that item's inlines
            Step::TaskListMarker(done) => {
                let ghost before = self.opens@;
                match self.opens.pop() {
                    Some(Open::Item { task }) => {
                        let ghost kept = self.opens@;
                        let o = Open::Item { task: Some(done) };
                        self.opens.push(o);
                        assert(open_models(self.opens@) =~= open_models(kept).push(open_model(o)));
                        assert(open_models(kept) =~= open_models(before).drop_last());
                    },
                    Some(other) => {
                        self.opens.push(other);
                        assert(self.opens@ =~= before);
                    },
                    None => {},
                }
            },
            Step::Other => {},
        }
    }

    /// The innermost of the containers that nothing closed gives up what it held.
    fn give_up(&mut self)
        requires
            old(self)@.opens.len() > 0 || old(self)@.levels.len() > 1,
        ensures
            final(self)@ == old(self)@.given_up(),
    {
        let ghost before = self@;
        let ghost s = if before.opens.len() == 0 {
            before
        } else {
            before.popped()
        };
        let open = self.opens.pop();
        assert(self@ =~= s);
        if let Some(Open::List { start, items }) = open {
            self.push(Block::List { start, items });
            return;
        }
        if self.levels.len() <= 1 {
            return;
        }
        let in_list = match self.opens.last() {
            Some(Open::List { start, items }) => true,
            _ => false,
        };
        assert(in_list == (s.top() matches Some(OpenModel::List { start, items })));
        let mut inner = match self.levels.pop() {
            Some(inner) => inner,
            None => Vec::new(),
        };
        assert(self@ =~= State { levels: s.levels.drop_last(), ..s });
        match open {
            Some(Open::Quote(callout)) => {
                self.push(Block::Quote { callout, blocks: inner });
            },
            Some(Open::Item { task }) if in_list => {
                self.push_item(ListItem { task, blocks: inner });
            },
            _ => {
                if let Some(mut level) = self.levels.pop() {
                    let ghost (outer, held) = (level@, inner@);
                    level.append(&mut inner);
                    proof {
                        parse::lemma_block_models(outer);
                        parse::lemma_block_models(held);
                        parse::lemma_block_models(outer + held);
                        assert(parse::block_models(outer + held) =~= parse::block_models(outer)
                            + parse::block_models(held));
                    }
                    self.levels.push(level);
                    assert(self@.levels =~= s.spilled().levels);
                }
            },
        }
    }

    /// The definitions in reference order, with any never referenced last.
    fn footnotes(&mut self) -> (r: Vec<Footnote>)
        ensures
            parse::note_models(r@) == old(self)@.footnotes(),
            final(self)@ == (State {
                defs: seq![],
                ..old(self)@.numbered(old(self)@.defs.len()).0
            }),
            final(self)@.levels == old(self)@.levels,
            final(self)@.defs.len() == 0,
            old(self)@.notes.is_prefix_of(final(self)@.notes),
    {
        let ghost start = self@;
        let mut defs: Vec<(String, Vec<Block>)> = Vec::new();
        std::mem::swap(&mut defs, &mut self.defs);
        let ghost all = defs@;
        let mut sorted: Vec<Footnote> = Vec::new();
        for def in it: defs
            invariant
                it.seq() == all,
                start.defs == def_models(all),
                self@ == (State { defs: seq![], ..start.numbered(it.index() as nat).0 }),
                self@.levels == start.levels,
                parse::note_models(sorted@) == sorted_notes(start.numbered(it.index() as nat).1),
        {
            let ghost n: nat = it.index() as nat;
            let (label, blocks) = def;
            proof {
                assert(start.defs[n as int] == (label@, parse::block_models(blocks@)));
                lemma_numbered(start, n);
                lemma_numbered(start, n + 1);
            }
            let ghost before = start.numbered(n);
            let number = self.note_number(&label);
            place_note(&mut sorted, Footnote { number, blocks });
            proof {
                let after = start.numbered(n + 1);
                assert(after.1.drop_last() =~= before.1);
                assert(self@ == (State { defs: seq![], ..after.0 }));
            }
        }
        proof {
            lemma_numbered(start, start.defs.len());
        }
        sorted
    }

    /// The document, once everything was read.
    pub fn finish(self) -> (r: Doc)
        ensures
            r@ == self@.finish(),
    {
        let mut b = self;
        b.flush_loose_inlines();
        let ghost flushed = b@;

        // an unterminated container should still render what it held
        while b.opens.len() > 0 || b.levels.len() > 1
            invariant
                b@.unwound() == flushed.unwound(),
            decreases b.opens.len() + b.levels.len(),
        {
            b.give_up();
        }
        let ghost unwound = b@;
        assert(unwound == flushed.unwound());
        let footnotes = b.footnotes();
        proof {
            parse::lemma_note_models(footnotes@);
        }
        let mut blocks = match b.levels.pop() {
            Some(blocks) => blocks,
            None => Vec::new(),
        };
        assert(parse::block_models(blocks@) == unwound.inner());
        if footnotes.len() > 0 {
            let ghost before = blocks@;
            assert(parse::block_model(Block::Rule) == BlockModel::Rule);
            blocks.push(Block::Rule);
            assert(blocks@.drop_last() =~= before);
            assert(parse::block_models(blocks@) == unwound.inner().push(BlockModel::Rule));
            let ghost ruled = blocks@;
            assert(parse::block_model(Block::Footnotes(footnotes)) == BlockModel::Footnotes(
                unwound.footnotes(),
            ));
            blocks.push(Block::Footnotes(footnotes));
            assert(blocks@.drop_last() =~= ruled);
            assert(parse::block_models(blocks@) == unwound.inner().push(BlockModel::Rule).push(
                BlockModel::Footnotes(unwound.footnotes()),
            ));
        }
        Doc { blocks }
    }
}

/// The document that `events` build.
pub fn build(events: Vec<Step>) -> (r: Doc)
    ensures
        r@ == State::empty().steps(event::step_models(events@)).finish(),
{
    let mut b = Builder::new();
    let ghost all = events@;
    assert(events.len() == all.len());
    for e in it: events
        invariant
            it.seq() == all,
            b@ == State::empty().steps(event::step_models(all.take(it.index() as int))),
            b@.bold <= it.index(),
            b@.italic <= it.index(),
            b@.strike <= it.index(),
            b@.link <= it.index(),
            all.len() <= usize::MAX,
    {
        proof {
            let n = it.index() as int;
            let models = event::step_models(all.take(n + 1));
            assert(models.drop_last() =~= event::step_models(all.take(n)));
            assert(models.last() == e@);
            lemma_depth(b@, e@);
        }
        b.event(e);
    }
    assert(all.take(all.len() as int) =~= all);
    b.finish()
}

/// The text of a run of inlines, end to end.
pub open spec fn plain(inlines: Seq<InlineModel>) -> Seq<char>
    decreases inlines.len(),
{
    if inlines.len() == 0 {
        seq![]
    } else {
        plain(inlines.drop_last()) + match inlines.last() {
            InlineModel::Text { text, style } => text,
            _ => seq![],
        }
    }
}

/// Whether `i` is a run of text in `style`.
pub open spec fn is_run(i: InlineModel, style: Style) -> bool {
    match i {
        InlineModel::Text { text, style: s } => s == style,
        _ => false,
    }
}

/// No two neighbours could be one run.
pub open spec fn merged(inlines: Seq<InlineModel>) -> bool {
    forall|i: int, style: Style|
        #![trigger is_run(inlines[i], style)]
        0 < i < inlines.len() && is_run(inlines[i], style) ==> !is_run(inlines[i - 1], style)
}

/// A run of text adds that text and nothing else.
proof fn lemma_run_plain(s: State, t: Seq<char>, style: Style)
    ensures
        plain(s.run(t, style).inlines) == plain(s.inlines) + t,
{
    let after = s.run(t, style).inlines;
    if t.len() == 0 {
        assert(plain(s.inlines) + t =~= plain(s.inlines));
    } else if s.inlines.len() > 0 && after.len() == s.inlines.len() {
        assert(after.drop_last() =~= s.inlines.drop_last());
        assert(plain(after) =~= plain(s.inlines) + t);
    } else {
        assert(after.drop_last() =~= s.inlines);
        assert(plain(after) =~= plain(s.inlines) + t);
    }
}

/// Finding the URLs in a text loses nothing of it: the runs it is parted into, end to end, are
/// the text.
pub proof fn law_prose_keeps_text(s: State, t: Seq<char>, style: Style)
    ensures
        plain(s.prose(t, style).inlines) == plain(s.inlines) + t,
    decreases t.len(),
{
    url::lemma_next_url(t);
    match url::next_url(t) {
        Some((at, end)) => {
            let linked = Style { link: true, ..style };
            let before = s.run(t.take(at), style);
            let found = before.run(t.subrange(at, end), linked);
            lemma_run_plain(s, t.take(at), style);
            lemma_run_plain(before, t.subrange(at, end), linked);
            law_prose_keeps_text(found, t.skip(end), style);
            assert(plain(s.inlines) + t.take(at) + t.subrange(at, end) + t.skip(end) =~= plain(
                s.inlines,
            ) + t);
        },
        None => {
            lemma_run_plain(s, t, style);
        },
    }
}

proof fn lemma_run_merged(s: State, t: Seq<char>, style: Style)
    requires
        merged(s.inlines),
    ensures
        merged(s.run(t, style).inlines),
{
    let a = s.inlines;
    let b = s.run(t, style).inlines;
    assert forall|i: int, st: Style| #![trigger is_run(b[i], st)]
        0 < i < b.len() && is_run(b[i], st) implies !is_run(b[i - 1], st) by {
        if i < b.len() - 1 {
            assert(b[i] == a[i]);
            assert(b[i - 1] == a[i - 1]);
            assert(is_run(a[i], st));
        } else if b.len() == a.len() {
            assert(b[i - 1] == a[i - 1]);
            assert(t.len() > 0 ==> is_run(a[i], style));
            assert(is_run(a[i], st));
        } else {
            assert(b[i - 1] == a[i - 1]);
            assert(is_run(b[i], style) && st == style);
        }
    }
}

proof fn lemma_prose_merged(s: State, t: Seq<char>, style: Style)
    requires
        merged(s.inlines),
    ensures
        merged(s.prose(t, style).inlines),
    decreases t.len(),
{
    match url::next_url(t) {
        Some((at, end)) => if 0 <= at < end <= t.len() {
            let linked = Style { link: true, ..style };
            lemma_run_merged(s, t.take(at), style);
            lemma_run_merged(s.run(t.take(at), style), t.subrange(at, end), linked);
            lemma_prose_merged(
                s.run(t.take(at), style).run(t.subrange(at, end), linked),
                t.skip(end),
                style,
            );
        } else {
            lemma_run_merged(s, t, style);
        },
        None => {
            lemma_run_merged(s, t, style);
        },
    }
}

proof fn lemma_text_merged(s: State, t: Seq<char>, style: Style)
    requires
        merged(s.inlines),
    ensures
        merged(s.text(t, style).inlines),
{
    lemma_run_merged(s, t, style);
    lemma_prose_merged(s, t, style);
}

proof fn lemma_push_merged(s: State, i: InlineModel)
    requires
        merged(s.inlines),
        !(i is Text),
    ensures
        merged(s.push_inline(i).inlines),
{
    let b = s.push_inline(i).inlines;
    assert forall|k: int, st: Style| #![trigger is_run(b[k], st)]
        0 < k < b.len() && is_run(b[k], st) implies !is_run(b[k - 1], st) by {
        assert(b[k] == s.inlines[k] && b[k - 1] == s.inlines[k - 1]);
        assert(is_run(s.inlines[k], st));
    }
}

/// However a document reads, runs that agree on style are one run: no step leaves two of them
/// side by side.
pub proof fn law_runs_merge(s: State, e: StepModel)
    requires
        merged(s.inlines),
    ensures
        merged(s.step(e).inlines),
{
    let b = s.begun();
    match e {
        StepModel::Text(t) => {
            lemma_text_merged(b, t, b.style());
        },
        StepModel::Code(t) => {
            lemma_text_merged(b, t, Style { code: true, ..b.style() });
        },
        StepModel::InlineHtml(t) => {
            lemma_text_merged(b, t, b.style());
        },
        StepModel::SoftBreak => {
            lemma_text_merged(b, seq![' '], b.style());
        },
        StepModel::HardBreak => {
            lemma_push_merged(b, InlineModel::Break);
        },
        StepModel::FootnoteReference(label) => {
            let n = b.noted(label);
            lemma_push_merged(n, InlineModel::Note { number: n.number(label) });
        },
        StepModel::End(Closing::Image) => {
            lemma_push_merged(
                State { alt: seq![], slot: None, ..b },
                InlineModel::Image { alt: b.alt },
            );
        },
        _ => {},
    }
}

proof fn lemma_prose_notes(s: State, t: Seq<char>, style: Style)
    ensures
        s.prose(t, style).notes == s.notes,
        s.prose(t, style).levels == s.levels,
    decreases t.len(),
{
    match url::next_url(t) {
        Some((at, end)) => if 0 <= at < end <= t.len() {
            lemma_prose_notes(
                s.run(t.take(at), style).run(t.subrange(at, end), Style { link: true, ..style }),
                t.skip(end),
                style,
            );
        },
        None => {},
    }
}

/// Footnotes are numbered by their first reference: a label is entered once, behind all that were
/// referenced before it, and keeps its number whatever is read later.
pub proof fn law_notes_keep_their_numbers(s: State, e: StepModel, label: Seq<char>)
    requires
        s.notes.no_duplicates(),
    ensures
        s.step(e).notes.no_duplicates(),
        s.notes.is_prefix_of(s.step(e).notes),
        s.notes.contains(label) ==> s.step(e).number(label) == s.number(label),
{
    let b = s.begun();
    lemma_prose_notes(b, e->Text_0, b.style());
    lemma_prose_notes(b, e->InlineHtml_0, b.style());
    lemma_prose_notes(b, seq![' '], b.style());
    let after = s.step(e).notes;
    if s.notes.contains(label) {
        let at = choose|i: int| 0 <= i < s.notes.len() && s.notes[i] == label;
        assert(after[at] == label);
        s.notes.index_of_first_ensures(label);
        after.index_of_first_ensures(label);
        assert(s.notes[s.notes.index_of_first(label)->0] == after[s.notes.index_of_first(
            label,
        )->0]);
    }
}

proof fn lemma_insert_note_keeps(sorted: Seq<NoteModel>, note: NoteModel)
    ensures
        insert_note(sorted, note).to_multiset() == sorted.to_multiset().insert(note),
        insert_note(sorted, note).len() == sorted.len() + 1,
        by_number(sorted) ==> by_number(insert_note(sorted, note)),
        forall|k: int|
            0 <= k < insert_note(sorted, note).len() ==> insert_note(sorted, note)[k] == note || (
            exists|j: int| 0 <= j < sorted.len() && #[trigger] sorted[j] == insert_note(sorted, note)[k]),
    decreases sorted.len(),
{
    broadcast use vstd::seq_lib::group_to_multiset_ensures;

    if sorted.len() == 0 || sorted.last().number <= note.number {
        assert(forall|k: int| 0 <= k < sorted.len() ==> sorted.push(note)[k] == sorted[k]);
    } else {
        let shorter = sorted.drop_last();
        lemma_insert_note_keeps(shorter, note);
        let inner = insert_note(shorter, note);
        assert(sorted =~= shorter.push(sorted.last()));
        assert(insert_note(sorted, note).to_multiset() =~= sorted.to_multiset().insert(note));
        if by_number(sorted) {
            assert(by_number(shorter));
            assert forall|k: int| 0 <= k < inner.len() implies #[trigger] inner[k].number
                <= sorted.last().number by {
                if inner[k] != note {
                    let j = choose|j: int| 0 <= j < shorter.len() && #[trigger] shorter[j] == inner[k];
                    assert(sorted[j] == inner[k]);
                }
            }
        }
        assert forall|k: int| 0 <= k < inner.len() + 1 implies insert_note(sorted, note)[k] == note || (
        exists|j: int| 0 <= j < sorted.len() && #[trigger] sorted[j] == insert_note(sorted, note)[k]) by {
            if k < inner.len() {
                if inner[k] != note {
                    let j = choose|j: int| 0 <= j < shorter.len() && #[trigger] shorter[j] == inner[k];
                    assert(sorted[j] == inner[k]);
                }
            } else {
                assert(sorted[sorted.len() - 1] == insert_note(sorted, note)[k]);
            }
        }
    }
}

/// Whether notes stand in the order of their numbers.
pub open spec fn by_number(notes: Seq<NoteModel>) -> bool {
    forall|i: int, j: int| 0 <= i <= j < notes.len() ==> notes[i].number <= notes[j].number
}

/// The footnotes at the end of a document are its definitions, all of them and no others, in the
/// order of their numbers.
pub proof fn law_footnotes_in_reference_order(s: State)
    ensures
        by_number(s.footnotes()),
        s.footnotes().to_multiset() == s.numbered(s.defs.len()).1.to_multiset(),
        s.footnotes().len() == s.defs.len(),
{
    lemma_sorted_notes(s.numbered(s.defs.len()).1);
    lemma_numbered(s, s.defs.len());
}

proof fn lemma_sorted_notes(notes: Seq<NoteModel>)
    ensures
        by_number(sorted_notes(notes)),
        sorted_notes(notes).to_multiset() == notes.to_multiset(),
        sorted_notes(notes).len() == notes.len(),
    decreases notes.len(),
{
    broadcast use vstd::seq_lib::group_to_multiset_ensures;

    if notes.len() > 0 {
        lemma_sorted_notes(notes.drop_last());
        lemma_insert_note_keeps(sorted_notes(notes.drop_last()), notes.last());
        assert(notes =~= notes.drop_last().push(notes.last()));
    }
}

/// A document without footnotes gains no rule: it ends with what it held.
pub proof fn law_no_footnotes_no_rule(s: State)
    requires
        s.defs.len() == 0,
    ensures
        s.finish() == s.flush().unwound().inner(),
{
    lemma_unwound_defs(s.flush());
    law_footnotes_in_reference_order(s.flush().unwound());
}

proof fn lemma_unwound_defs(s: State)
    ensures
        s.unwound().defs == s.defs,
        s.unwound().notes == s.notes,
    decreases s.opens.len() + s.levels.len(),
{
    if s.opens.len() > 0 || s.levels.len() > 1 {
        lemma_unwound_defs(s.given_up());
    }
}

/// Blocks in reading order, with the blocks of every quote and of every list's items in its place.
pub open spec fn flat(blocks: Seq<BlockModel>) -> Seq<BlockModel>
    decreases blocks,
{
    if blocks.len() == 0 {
        seq![]
    } else {
        flat(blocks.drop_last()) + match blocks.last() {
            BlockModel::Quote { callout, blocks: inner } => flat(inner),
            BlockModel::List { start, items } => flat_items(items),
            b => seq![b],
        }
    }
}

/// The blocks of a list's items in reading order.
pub open spec fn flat_items(items: Seq<ItemModel>) -> Seq<BlockModel>
    decreases items,
{
    if items.len() == 0 {
        seq![]
    } else {
        flat_items(items.drop_last()) + flat(items.last().blocks)
    }
}

/// How many of the open containers have blocks of their own: a list holds items instead.
pub open spec fn holders(opens: Seq<OpenModel>) -> nat
    decreases opens.len(),
{
    if opens.len() == 0 {
        0
    } else {
        holders(opens.drop_last()) + if opens.last() is List {
            0nat
        } else {
            1
        }
    }
}

/// Whether the open containers are nested as elements are: a list holds nothing but items, and each
/// container that has blocks of its own has its level of them, above the document's.
pub open spec fn nested(s: State) -> bool {
    &&& s.levels.len() == 1 + holders(s.opens)
    &&& forall|i: int|
        0 < i < s.opens.len() && s.opens[i - 1] is List ==> #[trigger] s.opens[i] is Item
}

/// What the document and its open containers hold, in reading order.
pub open spec fn held(s: State) -> Seq<BlockModel>
    decreases s.opens.len(),
{
    if s.opens.len() == 0 {
        flat(s.inner())
    } else {
        match s.opens.last() {
            OpenModel::List { start, items } => held(s.popped()) + flat_items(items),
            _ => held(s.leave()) + flat(s.inner()),
        }
    }
}

proof fn lemma_flat(a: Seq<BlockModel>, b: Seq<BlockModel>)
    ensures
        flat(a + b) == flat(a) + flat(b),
    decreases b.len(),
{
    if b.len() == 0 {
        assert(a + b =~= a);
        assert(flat(a) + flat(b) =~= flat(a));
    } else {
        assert((a + b).drop_last() =~= a + b.drop_last());
        lemma_flat(a, b.drop_last());
        assert(flat(a + b) =~= flat(a) + flat(b));
    }
}

/// What joins the innermost container, where that is no list, is read last.
proof fn lemma_held_joins(s: State, more: Seq<BlockModel>)
    requires
        s.levels.len() > 0,
        s.opens.len() > 0 ==> !(s.opens.last() is List),
    ensures
        ({
            let t = State { levels: s.levels.drop_last().push(s.levels.last() + more), ..s };
            held(t) == held(s) + flat(more)
        }),
{
    let t = State { levels: s.levels.drop_last().push(s.levels.last() + more), ..s };
    lemma_flat(s.levels.last(), more);
    if s.opens.len() > 0 {
        assert(t.leave().levels =~= s.leave().levels);
        assert(t.leave() =~= s.leave());
        assert(held(t) =~= held(s) + flat(more));
    }
}

/// A container that gives up what it held leaves the rest nested, and loses nothing.
proof fn lemma_given_up(s: State)
    requires
        nested(s),
        s.opens.len() > 0,
    ensures
        nested(s.given_up()),
        held(s.given_up()) == held(s),
        s.given_up().opens.len() == s.opens.len() - 1,
{
    reveal_with_fuel(flat, 3);
    reveal_with_fuel(holders, 3);
    let p = s.popped();
    let next = s.given_up();
    assert forall|i: int| 0 < i < p.opens.len() && p.opens[i - 1] is List implies #[trigger] p.opens[i] is Item by {
        assert(s.opens[i] is Item);
    }
    match s.opens.last() {
        OpenModel::List { start, items } => {
            let b = BlockModel::List { start, items };
            assert(p.levels.last() + seq![b] =~= p.levels.last().push(b));
            assert(seq![b].drop_last() =~= seq![]);
            assert(flat(seq![b]) =~= flat_items(items));
            lemma_held_joins(p, seq![b]);
        },
        open => {
            assert(s.levels.len() > 1);
            let left = s.leave();
            let inner = s.inner();
            if open is Quote {
                let b = BlockModel::Quote { callout: open->Quote_0, blocks: inner };
                assert(left.levels.last() + seq![b] =~= left.levels.last().push(b));
                assert(seq![b].drop_last() =~= seq![]);
                assert(flat(seq![b]) =~= flat(inner));
                lemma_held_joins(left, seq![b]);
                assert(next =~= left.push(b));
            } else if p.opens.len() > 0 && p.opens.last() is List {
                let items = p.opens.last()->items;
                let task = open->task;
                let item = ItemModel { task, blocks: inner };
                assert(s.opens[s.opens.len() - 1] is Item);
                assert(next =~= left.push_item(item));
                assert(items.push(item).drop_last() =~= items);
                assert(next.popped() =~= left.popped());
                assert(next.opens.drop_last() =~= left.opens.drop_last());
                assert forall|i: int| 0 < i < next.opens.len() && next.opens[i - 1] is List implies #[trigger] next.opens[i] is Item by {
                    assert(p.opens[i] is Item);
                }
                assert(held(next) =~= held(left) + flat(inner));
            } else {
                lemma_held_joins(left, inner);
                assert(next =~= State {
                    levels: left.levels.drop_last().push(left.levels.last() + inner),
                    ..left
                });
            }
        },
    }
}

/// A container that nothing closed still renders what it held: unwinding keeps every block, those of
/// a list's finished items too, in reading order.
pub proof fn law_unterminated_containers_render(s: State)
    requires
        nested(s),
    ensures
        s.unwound().levels.len() == 1,
        s.unwound().opens.len() == 0,
        flat(s.unwound().inner()) == held(s),
    decreases s.opens.len(),
{
    if s.opens.len() > 0 {
        lemma_given_up(s);
        law_unterminated_containers_render(s.given_up());
    }
}

/// Markup never reaches the page: a block of HTML changes nothing.
pub proof fn law_html_is_dropped(s: State, t: Seq<char>)
    ensures
        s.step(StepModel::Html(t)) == s.begun(),
{
}

/// Front matter is dropped: what stands between its fences leaves no trace.
pub proof fn law_front_matter_is_dropped(s: State, t: Seq<char>)
    requires
        !s.meta,
    ensures
        s.step(StepModel::Start(OpeningModel::MetadataBlock)).step(StepModel::Text(t)).step(
            StepModel::End(Closing::MetadataBlock),
        ) == s.begun(),
{
}

/// An emphasis that closes leaves the style as it found it.
pub proof fn law_emphasis_closes(s: State)
    ensures
        s.start(OpeningModel::Strong).end(Closing::Strong) == s,
        s.start(OpeningModel::Emphasis).end(Closing::Emphasis) == s,
        s.start(OpeningModel::Strikethrough).end(Closing::Strikethrough) == s,
        s.start(OpeningModel::Link).end(Closing::Link) == s,
        s.start(OpeningModel::Strong).style() == (Style { bold: true, ..s.style() }),
        s.start(OpeningModel::Emphasis).style() == (Style { italic: true, ..s.style() }),
        s.start(OpeningModel::Strikethrough).style() == (Style { strike: true, ..s.style() }),
        s.start(OpeningModel::Link).style() == (Style { link: true, ..s.style() }),
{
}

/// A quote that closes puts its blocks, and only them, into the container it was opened in.
pub proof fn law_quote_closes(s: State, callout: Option<Callout>, blocks: Seq<BlockModel>)
    requires
        s.levels.len() > 0,
    ensures
        ({
            let open = s.step(StepModel::Start(OpeningModel::BlockQuote(callout)));
            let full = State { levels: open.levels.drop_last().push(blocks), ..open };
            full.step(StepModel::End(Closing::BlockQuote)) == s.push(
                BlockModel::Quote { callout, blocks },
            )
        }),
{
    let open = s.step(StepModel::Start(OpeningModel::BlockQuote(callout)));
    let full = State { levels: open.levels.drop_last().push(blocks), ..open };
    assert(full.leave().levels =~= s.levels);
    assert(full.leave().opens =~= s.opens);
    assert(full.leave() =~= s);
}

/// A table keeps its rows in the order they were written: once a row closes, the rows read before it
/// are where they were, and the row just read is the last, with the cells that were read. Its head, its
/// alignment and all else stay.
pub proof fn law_rows_keep_their_order(s: State, t: TableModel)
    requires
        s.table == Some(t),
    ensures
        ({
            let after = s.step(StepModel::End(Closing::TableRow));
            &&& after.table matches Some(u) && {
                &&& u.rows.len() == t.rows.len() + 1
                &&& forall|i: int| 0 <= i < t.rows.len() ==> u.rows[i] == t.rows[i]
                &&& u.rows[t.rows.len() as int] == s.row
                &&& u.head == t.head
                &&& u.align == t.align
            }
            &&& after.row.len() == 0
            &&& after.inlines == s.inlines
            &&& after.inner() == s.begun().inner()
            &&& after.opens == s.opens
        }),
{
}

/// A row keeps its cells in the order they were written: once a cell closes, those before it are where
/// they were and the one just read is the last, with the text that was read in it.
pub proof fn law_cells_keep_their_order(s: State)
    ensures
        ({
            let after = s.step(StepModel::End(Closing::TableCell));
            &&& after.row.len() == s.row.len() + 1
            &&& forall|i: int| 0 <= i < s.row.len() ==> after.row[i] == s.row[i]
            &&& after.row[s.row.len() as int] == s.inlines
            &&& after.inlines.len() == 0
            &&& after.table == s.table
            &&& after.inner() == s.begun().inner()
        }),
{
}

/// A table begins empty with the alignment it was written with, its head is the cells before its head
/// closed, and once it closes it stands last in what holds it, as it was read.
pub proof fn law_a_table_is_what_was_read(s: State, align: Seq<parse::Align>, t: TableModel)
    ensures
        s.step(StepModel::Start(OpeningModel::Table(align))).table == Some(
            TableModel { align, head: seq![], rows: seq![] },
        ),
        s.table == Some(t) ==> ({
            let headed = s.step(StepModel::End(Closing::TableHead));
            &&& headed.table == Some(TableModel { align: t.align, head: s.row, rows: t.rows })
            &&& headed.row.len() == 0
        }),
        s.table == Some(t) ==> ({
            let after = s.step(StepModel::End(Closing::Table));
            &&& after.table is None
            &&& after.inner() == s.begun().inner().push(BlockModel::Table(t))
            &&& after.opens == s.opens
        }),
{
}

/// What a block was read as stands last in what holds it, behind all that was read there before: a
/// paragraph or a heading of its level with the text read in it, a block of code with its language and
/// the lines of its text, a rule.
pub proof fn law_blocks_keep_their_order(s: State, level: u8, code: Seq<char>)
    ensures
        ({
            let before = s.begun().inner();
            let paragraph = s.step(StepModel::End(Closing::Paragraph));
            let heading = s.step(StepModel::End(Closing::Heading(level)));
            let rule = s.step(StepModel::Rule);
            &&& s.inlines.len() > 0 ==> paragraph.inner() == before.push(
                BlockModel::Paragraph(s.inlines),
            )
            &&& s.inlines.len() == 0 ==> paragraph.inner() == before
            &&& paragraph.inlines.len() == 0
            &&& paragraph.slot is None
            &&& heading.inner() == before.push(BlockModel::Heading { level, inlines: s.inlines })
            &&& heading.inlines.len() == 0
            &&& heading.slot is None
            &&& rule.inner() == before.push(BlockModel::Rule)
            &&& rule.inlines == s.inlines
            &&& s.code == Some(code) ==> ({
                let block = s.step(StepModel::End(Closing::CodeBlock));
                &&& block.inner().len() == before.len() + 1
                &&& block.inner().drop_last() == before
                &&& block.inner().last() matches BlockModel::Code { lang, lines } && lang
                    == s.code_lang && (code.len() > 0 && code.last() == '\n' ==> text::joined(lines)
                    == code.drop_last()) && (code.len() == 0 || code.last() != '\n'
                    ==> text::joined(lines) == code)
                &&& block.code is None
                &&& block.code_lang is None
            })
        }),
{
    let before = s.begun().inner();
    text::law_lines_of(code_body(code));
    if s.code == Some(code) {
        let block = s.step(StepModel::End(Closing::CodeBlock));
        assert(block.inner().drop_last() =~= before);
    }
}

/// The text of a block of code is what was read between its fences, piece behind piece, with the
/// language its fence named; nothing in it is prose.
pub proof fn law_code_is_what_was_read(s: State, lang: Option<Seq<char>>, a: Seq<char>, t: Seq<char>)
    requires
        !s.meta,
    ensures
        ({
            let opened = s.step(StepModel::Start(OpeningModel::CodeBlock(lang)));
            &&& opened.code == Some(Seq::<char>::empty())
            &&& opened.code_lang == lang
            &&& s.code == Some(a) ==> ({
                let after = s.step(StepModel::Text(t));
                &&& after.code == Some(a + t)
                &&& after.code_lang == s.code_lang
                &&& after.inlines == s.inlines
                &&& after.inner() == s.begun().inner()
            })
        }),
{
}

/// A list keeps its items in the order they were written: once an item closes, those before it are
/// where they were and the one just read is the last, with its task mark and what was read in it. The
/// number the list begins with stays.
pub proof fn law_items_keep_their_order(
    s: State,
    start: Option<u64>,
    items: Seq<ItemModel>,
    task: Option<bool>,
    blocks: Seq<BlockModel>,
)
    requires
        s.levels.len() >= 2,
        s.levels.last() == blocks,
        s.opens.len() >= 2,
        s.opens.last() == (OpenModel::Item { task }),
        s.opens[s.opens.len() - 2] == (OpenModel::List { start, items }),
    ensures
        ({
            let after = s.step(StepModel::End(Closing::Item));
            &&& after.opens.len() == s.opens.len() - 1
            &&& after.opens.last() matches OpenModel::List { start: from, items: now } && {
                &&& from == start
                &&& now.len() == items.len() + 1
                &&& forall|i: int| 0 <= i < items.len() ==> now[i] == items[i]
                &&& now.last().task == task
                &&& s.inlines.len() == 0 ==> now.last().blocks == blocks
                &&& s.inlines.len() > 0 ==> now.last().blocks == blocks.push(
                    BlockModel::Paragraph(s.inlines),
                )
            }
            &&& after.levels == s.levels.drop_last()
            &&& after.inlines.len() == 0
        }),
{
    let f = s.flush();
    assert(f.levels.drop_last() =~= s.levels.drop_last());
    assert(f.opens.drop_last().last() == s.opens[s.opens.len() - 2]);
}

/// A list begins with no items and with the number it was written with, and once it closes it stands
/// last in what holds it, with that number and its items.
pub proof fn law_a_list_is_what_was_read(s: State, start: Option<u64>, items: Seq<ItemModel>)
    ensures
        s.step(StepModel::Start(OpeningModel::List(start))).opens == s.opens.push(
            OpenModel::List { start, items: seq![] },
        ),
        s.step(StepModel::Start(OpeningModel::Item)).opens == s.opens.push(
            OpenModel::Item { task: None },
        ),
        s.step(StepModel::Start(OpeningModel::Item)).inner().len() == 0,
        s.opens.len() > 0 && s.opens.last() == (OpenModel::List { start, items }) ==> ({
            let after = s.step(StepModel::End(Closing::List));
            &&& after.inner() == s.begun().inner().push(BlockModel::List { start, items })
            &&& after.opens == s.opens.drop_last()
        }),
{
}

/// A task mark is that of the item it stands in, done or not as it says, and of nothing else.
pub proof fn law_a_task_mark_is_its_items(s: State, task: Option<bool>, done: bool)
    requires
        s.opens.len() > 0,
    ensures
        ({
            let after = s.step(StepModel::TaskListMarker(done));
            &&& s.opens.last() == (OpenModel::Item { task }) ==> after.opens == s.opens.drop_last().push(
                OpenModel::Item { task: Some(done) },
            )
            &&& !(s.opens.last() is Item) ==> after.opens == s.opens
            &&& after.inlines == s.inlines
            &&& after.inner() == s.begun().inner()
        }),
{
}

/// Text is bold where it stands in strong text, italic where it stands in emphasis, struck where it
/// stands in struck text and a link where it stands in one, however they are nested; closing the one
/// changes none of the others.
pub proof fn law_text_has_the_style_it_stands_in(s: State)
    ensures
        s.style().bold == (s.bold > 0),
        s.style().italic == (s.italic > 0),
        s.style().strike == (s.strike > 0),
        s.style().link == (s.link > 0),
        !s.style().code,
        s.step(StepModel::Start(OpeningModel::Strong)).style() == (Style { bold: true, ..s.style() }),
        s.step(StepModel::Start(OpeningModel::Emphasis)).style() == (Style {
            italic: true,
            ..s.style()
        }),
        s.step(StepModel::Start(OpeningModel::Strikethrough)).style() == (Style {
            strike: true,
            ..s.style()
        }),
        s.step(StepModel::Start(OpeningModel::Link)).style() == (Style { link: true, ..s.style() }),
        s.bold == 1 ==> s.step(StepModel::End(Closing::Strong)).style() == (Style {
            bold: false,
            ..s.style()
        }),
        s.italic == 1 ==> s.step(StepModel::End(Closing::Emphasis)).style() == (Style {
            italic: false,
            ..s.style()
        }),
        s.strike == 1 ==> s.step(StepModel::End(Closing::Strikethrough)).style() == (Style {
            strike: false,
            ..s.style()
        }),
        s.link == 1 ==> s.step(StepModel::End(Closing::Link)).style() == (Style {
            link: false,
            ..s.style()
        }),
        s.bold > 1 ==> s.step(StepModel::End(Closing::Strong)).style() == s.style(),
        s.italic > 1 ==> s.step(StepModel::End(Closing::Emphasis)).style() == s.style(),
        s.strike > 1 ==> s.step(StepModel::End(Closing::Strikethrough)).style() == s.style(),
        s.link > 1 ==> s.step(StepModel::End(Closing::Link)).style() == s.style(),
{
}

/// Where the last run of text says `t`, in a style.
pub open spec fn ends_in_run(inlines: Seq<InlineModel>, t: Seq<char>, style: Style) -> bool {
    inlines.len() > 0 && (inlines.last() matches InlineModel::Text { text, style: of } && of == style
        && text.len() >= t.len() && text.skip(text.len() - t.len()) == t)
}

/// What is read is said at the end, in the style it stands in: text in that style, a code span in it
/// with the style of code, a soft break as a space. Text that holds an address is parted at it. Nothing
/// that was said before changes but to be continued.
pub proof fn law_text_is_said_in_its_style(s: State, t: Seq<char>)
    requires
        t.len() > 0,
        s.slot != Some(Slot::ImageAlt),
        !s.meta,
        s.code is None,
    ensures
        s.link > 0 || url::next_url(t) is None ==> ends_in_run(
            s.step(StepModel::Text(t)).inlines,
            t,
            s.style(),
        ),
        ends_in_run(s.step(StepModel::Code(t)).inlines, t, Style { code: true, ..s.style() }),
        s.link > 0 || url::next_url(seq![' ']) is None ==> ends_in_run(
            s.step(StepModel::SoftBreak).inlines,
            seq![' '],
            s.style(),
        ),
        s.link > 0 || url::next_url(t) is None ==> plain(s.step(StepModel::Text(t)).inlines) == plain(
            s.inlines,
        ) + t,
        plain(s.step(StepModel::Code(t)).inlines) == plain(s.inlines) + t,
{
    let b = s.begun();
    let code = Style { code: true, ..s.style() };
    lemma_run_ends(b, t, s.style());
    lemma_run_ends(b, t, code);
    lemma_run_ends(b, seq![' '], s.style());
    lemma_run_plain(b, t, s.style());
    lemma_run_plain(b, t, code);
}

proof fn lemma_run_ends(s: State, t: Seq<char>, style: Style)
    requires
        t.len() > 0,
    ensures
        ends_in_run(s.run(t, style).inlines, t, style),
{
    let after = s.run(t, style).inlines;
    if let InlineModel::Text { text, style: of } = after.last() {
        assert(text.skip(text.len() - t.len()) =~= t);
    }
}

/// An address in prose is a run of its own, styled as a link and otherwise as the text around it, with
/// what stands before it and behind it as plain text.
pub proof fn law_an_address_is_a_link(s: State, t: Seq<char>, at: int, end: int)
    requires
        s.slot != Some(Slot::ImageAlt),
        !s.meta,
        s.code is None,
        s.link == 0,
        url::next_url(t) == Some((at, end)),
        end == t.len(),
        0 < at < end,
        url::next_url(Seq::<char>::empty()) is None,
    ensures
        ({
            let after = s.step(StepModel::Text(t)).inlines;
            let n = after.len();
            &&& n >= 2
            &&& ends_in_run(after, t.skip(at), Style { link: true, ..s.style() })
            &&& after.last() matches InlineModel::Text { text, .. } && text == t.skip(at)
            &&& ends_in_run(after.drop_last(), t.take(at), s.style())
        }),
{
    let b = s.begun();
    let linked = Style { link: true, ..s.style() };
    let one = b.run(t.take(at), s.style());
    let two = one.run(t.subrange(at, end), linked);
    lemma_run_ends(b, t.take(at), s.style());
    assert(t.subrange(at, end) =~= t.skip(at));
    assert(t.skip(end) =~= seq![]);
    assert(two.prose(t.skip(end), s.style()) == two);
    assert(two.inlines.drop_last() =~= one.inlines);
    assert(two.inlines.last() == (InlineModel::Text { text: t.skip(at), style: linked }));
    lemma_run_ends(one, t.skip(at), linked);
}

/// A picture in the text is its description, what was read between its start and its end; a line break
/// is a break, and a reference to a footnote its number: where its label stands among those referred to
/// so far, counted from one.
pub proof fn law_inlines_are_what_was_read(s: State, t: Seq<char>, label: Seq<char>)
    requires
        !s.meta,
        s.code is None,
    ensures
        ({
            let opened = s.step(StepModel::Start(OpeningModel::Image));
            &&& opened.alt.len() == 0
            &&& opened.inlines == s.inlines
            &&& opened.step(StepModel::Text(t)).alt == t
            &&& opened.step(StepModel::Text(t)).inlines == s.inlines
            &&& s.step(StepModel::End(Closing::Image)).inlines == s.inlines.push(
                InlineModel::Image { alt: s.alt },
            )
            &&& s.step(StepModel::HardBreak).inlines == s.inlines.push(InlineModel::Break)
        }),
        ({
            let after = s.step(StepModel::FootnoteReference(label));
            &&& after.inlines.len() == s.inlines.len() + 1
            &&& after.inlines.drop_last() == s.inlines
            &&& after.inlines.last() matches InlineModel::Note { number } && 1 <= number
                <= after.notes.len() && after.notes[number - 1] == label && (forall|i: int|
                0 <= i < number - 1 ==> after.notes[i] != label)
            &&& s.notes.contains(label) ==> after.notes == s.notes
            &&& !s.notes.contains(label) ==> after.notes == s.notes.push(label)
        }),
{
    let opened = s.step(StepModel::Start(OpeningModel::Image));
    assert(opened.step(StepModel::Text(t)).alt =~= t);
    let after = s.step(StepModel::FootnoteReference(label));
    assert(after.inlines.drop_last() =~= s.inlines);
    if !s.notes.contains(label) {
        assert(after.notes[s.notes.len() as int] == label);
    }
    assert(after.notes.contains(label));
    after.notes.index_of_first_ensures(label);
}

/// A footnote's definition is kept behind those written before it, under its label, with what was read
/// in it, and is no part of what stands around it.
pub proof fn law_definitions_keep_their_order(s: State, label: Seq<char>)
    requires
        s.levels.len() >= 2,
        s.opens.len() > 0,
        s.opens.last() == OpenModel::Note(label),
        s.inlines.len() == 0,
    ensures
        ({
            let after = s.step(StepModel::End(Closing::FootnoteDefinition));
            &&& after.defs == s.defs.push((label, s.levels.last()))
            &&& after.levels == s.levels.drop_last()
            &&& after.opens == s.opens.drop_last()
        }),
{
}

/// Every footnote has the number of its own label and the text of its own definition.
pub proof fn law_a_footnote_is_its_definition(s: State, i: int)
    requires
        0 <= i < s.defs.len(),
    ensures
        ({
            let (after, notes) = s.numbered(s.defs.len());
            let n = notes[i].number;
            &&& notes.len() == s.defs.len()
            &&& notes[i].blocks == s.defs[i].1
            &&& 1 <= n <= after.notes.len()
            &&& after.notes[n - 1] == s.defs[i].0
            &&& s.notes.is_prefix_of(after.notes)
        }),
{
    lemma_numbered_each(s, s.defs.len(), i);
}

proof fn lemma_numbered_each(s: State, n: nat, i: int)
    requires
        n <= s.defs.len(),
    ensures
        ({
            let (after, notes) = s.numbered(n);
            &&& notes.len() == n
            &&& s.notes.is_prefix_of(after.notes)
            &&& 0 <= i < n ==> {
                let k = notes[i].number;
                &&& notes[i].blocks == s.defs[i].1
                &&& 1 <= k <= after.notes.len()
                &&& after.notes[k - 1] == s.defs[i].0
            }
        }),
    decreases n,
{
    if n > 0 {
        lemma_numbered_each(s, (n - 1) as nat, i);
        let (before, notes) = s.numbered((n - 1) as nat);
        let (label, blocks) = s.defs[n - 1];
        let t = before.noted(label);
        if !before.notes.contains(label) {
            assert(t.notes[before.notes.len() as int] == label);
        }
        assert(t.notes.contains(label));
        t.notes.index_of_first_ensures(label);
    }
}

/// A document ends in what it held, and where it has footnotes in a rule and then all of them.
pub proof fn law_a_document_ends_in_its_footnotes(s: State)
    requires
        s.inlines.len() == 0,
        s.opens.len() == 0,
        s.levels.len() == 1,
    ensures
        s.defs.len() == 0 ==> s.finish() == s.levels[0],
        s.defs.len() > 0 ==> ({
            let n = s.levels[0].len() as int;
            let doc = s.finish();
            &&& doc.len() == n + 2
            &&& doc.take(n) == s.levels[0]
            &&& doc[n] == BlockModel::Rule
            &&& doc[n + 1] matches BlockModel::Footnotes(notes) && notes.len() == s.defs.len()
                && by_number(notes) && notes.to_multiset() == s.numbered(
                s.defs.len(),
            ).1.to_multiset()
        }),
{
    law_footnotes_in_reference_order(s);
    assert(s.flush() == s);
    assert(s.unwound() == s);
    if s.defs.len() > 0 {
        assert(s.finish().take(s.levels[0].len() as int) =~= s.levels[0]);
    }
}

/// A document is read from its first step to its last: what one part is read to, the next goes on from.
pub proof fn law_reading_goes_on(s: State, a: Seq<StepModel>, b: Seq<StepModel>)
    ensures
        s.steps(a + b) == s.steps(a).steps(b),
        a.len() == 1 ==> s.steps(a) == s.step(a[0]),
    decreases b.len(),
{
    if a.len() == 1 {
        assert(a.drop_last() =~= seq![]);
        assert(s.steps(a.drop_last()) == s);
    }
    if b.len() == 0 {
        assert(a + b =~= a);
    } else {
        assert((a + b).drop_last() =~= a + b.drop_last());
        law_reading_goes_on(s, a, b.drop_last());
    }
}

/// A quote keeps its kind and a footnote its label while they are open, and what is read in them
/// stands apart from what stands around them.
pub proof fn law_containers_open_empty(
    s: State,
    callout: Option<Callout>,
    label: Seq<char>,
    level: u8,
)
    ensures
        ({
            let quote = s.step(StepModel::Start(OpeningModel::BlockQuote(callout)));
            let note = s.step(StepModel::Start(OpeningModel::FootnoteDefinition(label)));
            &&& quote.opens == s.opens.push(OpenModel::Quote(callout))
            &&& quote.levels == s.begun().levels.push(seq![])
            &&& note.opens == s.opens.push(OpenModel::Note(label))
            &&& note.levels == s.begun().levels.push(seq![])
            &&& s.step(StepModel::Start(OpeningModel::Heading(level))).slot == Some(
                Slot::Heading(level),
            )
            &&& s.step(StepModel::Start(OpeningModel::Heading(level))).inlines == s.inlines
        }),
{
}

/// Text that no block closed is a paragraph at the end of the document.
pub proof fn law_loose_text_ends_the_document(s: State)
    requires
        s.inlines.len() > 0,
        s.opens.len() == 0,
        s.levels.len() == 1,
        s.defs.len() == 0,
    ensures
        s.finish() == s.levels[0].push(BlockModel::Paragraph(s.inlines)),
{
    let f = s.flush();
    law_no_footnotes_no_rule(s);
    assert(f.unwound() == f);
}

/// What is read of a document that is empty is nothing, and a document begins with nothing open and no
/// style.
pub proof fn law_a_document_begins_with_nothing()
    ensures
        State::empty().finish().len() == 0,
        State::empty().opens.len() == 0,
        State::empty().style() == (Style {
            bold: false,
            italic: false,
            code: false,
            strike: false,
            link: false,
        }),
        State::empty().notes.len() == 0,
        State::empty().begun().levels == seq![Seq::<BlockModel>::empty()],
{
    let e = State::empty();
    assert(e.flush() == e);
    assert(e.unwound() == e);
    law_footnotes_in_reference_order(e);
}

/// A tag in the text is said as it was written.
pub proof fn law_a_tag_in_the_text_is_said(s: State, t: Seq<char>)
    requires
        s.slot != Some(Slot::ImageAlt),
    ensures
        plain(s.step(StepModel::InlineHtml(t)).inlines) == plain(s.inlines) + t,
{
    let b = s.begun();
    lemma_run_plain(b, t, b.style());
    law_prose_keeps_text(b, t, b.style());
}

} // verus!
