//! Text broken onto lines of so many columns.

use vstd::prelude::*;

use crate::columns;
use crate::columns::{cols_of, width};
use crate::source::markdown::parse;
use crate::source::markdown::parse::{Inline, InlineModel, Style};
use crate::text;
use crate::text::{chars_of, push_dec, space, string_of};

verus! {

/// The words of a text: what stands between its whitespace.
pub open spec fn words(s: Seq<char>) -> Seq<Seq<char>>
    decreases s.len(),
{
    if s.len() == 0 {
        seq![]
    } else {
        let before = words(s.drop_last());
        if text::is_space(s.last()) {
            before
        } else if s.len() == 1 || text::is_space(s[s.len() - 2]) {
            before.push(seq![s.last()])
        } else {
            before.drop_last().push(before.last().push(s.last()))
        }
    }
}

/// A word to be set, or a break.
#[derive(Debug)]
pub enum Tok {
    Word {
        text: String,
        style: Style,
        /// Whether whitespace actually separated this word from the last one.
        //
        // markdown splits `**bold**, more` into a bold run and a
        // plain run beginning with a comma, so inferring a space
        // from "is anything to the left" spaces off punctuation
        space_before: bool,
    },
    Break,
}

/// A `Tok`, with its text as characters.
#[verifier::ext_equal]
pub enum TokModel {
    Word { text: Seq<char>, style: Style, space_before: bool },
    Break,
}

impl View for Tok {
    type V = TokModel;

    open spec fn view(&self) -> TokModel {
        match *self {
            Tok::Word { text, style, space_before } => TokModel::Word {
                text: text@,
                style,
                space_before,
            },
            Tok::Break => TokModel::Break,
        }
    }
}

/// The models of a run of tokens.
pub open spec fn tok_models(s: Seq<Tok>) -> Seq<TokModel> {
    s.map_values(|t: Tok| t@)
}

/// The tokens read so far, and whether whitespace stands behind the last.
#[verifier::ext_equal]
pub struct Toks {
    pub out: Seq<TokModel>,
    pub gap: bool,
}

/// The style of text inside an element that has a style of its own.
pub open spec fn inside(style: Style, base: Style) -> Style {
    Style { bold: style.bold || base.bold, italic: style.italic || base.italic, ..style }
}

/// One word of a text, the `i`th of it.
pub open spec fn word_tok(t: Seq<char>, style: Style, gap: bool, i: int) -> TokModel {
    TokModel::Word {
        text: words(t)[i],
        style,
        space_before: if i == 0 {
            gap || text::is_space(t[0])
        } else {
            true
        },
    }
}

/// One inline's tokens behind those already read.
pub open spec fn with_inline(s: Toks, inline: InlineModel, base: Style) -> Toks {
    match inline {
        InlineModel::Break => Toks { out: s.out.push(TokModel::Break), gap: false },
        InlineModel::Image { alt } => Toks {
            out: s.out.push(
                TokModel::Word {
                    text: "["@ + alt + "]"@,
                    style: Style { italic: true, ..base },
                    space_before: s.gap,
                },
            ),
            gap: false,
        },
        // the link colour, because a reference points
        // somewhere and Style carries no dim of its own
        InlineModel::Note { number } => Toks {
            out: s.out.push(
                TokModel::Word {
                    text: "["@ + text::dec(number) + "]"@,
                    style: Style { link: true, ..base },
                    space_before: s.gap,
                },
            ),
            gap: false,
        },
        InlineModel::Text { text: t, style } => Toks {
            out: s.out + Seq::new(
                words(t).len(),
                |i: int| word_tok(t, inside(style, base), s.gap, i),
            ),
            // a run of only whitespace still separates its
            // neighbours, so the gap stays set for the next one
            gap: if words(t).len() == 0 {
                s.gap || t.len() > 0
            } else {
                text::is_space(t.last())
            },
        },
    }
}

/// Inlines as words, remembering where the whitespace was.
pub open spec fn tokens_of(inlines: Seq<InlineModel>, base: Style) -> Toks
    decreases inlines.len(),
{
    if inlines.len() == 0 {
        Toks { out: seq![], gap: false }
    } else {
        with_inline(tokens_of(inlines.drop_last(), base), inlines.last(), base)
    }
}

/// Text being broken at columns: the pieces that are full, the one being filled and its columns.
#[verifier::ext_equal]
pub struct Split {
    pub done: Seq<Seq<char>>,
    pub cur: Seq<char>,
    pub w: nat,
}

/// `s` broken where the next character would pass `cols`.
pub open spec fn split_state(s: Seq<char>, cols: nat) -> Split
    decreases s.len(),
{
    if s.len() == 0 {
        Split { done: seq![], cur: seq![], w: 0 }
    } else {
        let b = split_state(s.drop_last(), cols);
        let c = s.last();
        let cw = columns::char_cols(c);
        if b.w + cw > cols && b.cur.len() > 0 {
            Split { done: b.done.push(b.cur), cur: seq![c], w: cw }
        } else {
            Split { done: b.done, cur: b.cur.push(c), w: b.w + cw }
        }
    }
}

/// `s` in pieces of at most `cols` columns, or of one character.
pub open spec fn chunks_of(s: Seq<char>, cols: nat) -> Seq<Seq<char>> {
    if columns::columns(s) <= cols {
        seq![s]
    } else {
        let b = split_state(s, cols);
        if b.cur.len() > 0 {
            b.done.push(b.cur)
        } else {
            b.done
        }
    }
}

/// One styled fragment on a line, positioned in columns from the left margin.
#[derive(Debug, PartialEq)]
pub struct Piece {
    pub col: usize,
    pub text: String,
    pub style: Style,
}

/// A `Piece`, with its text as characters.
#[verifier::ext_equal]
pub struct PieceModel {
    pub col: nat,
    pub text: Seq<char>,
    pub style: Style,
}

impl View for Piece {
    type V = PieceModel;

    open spec fn view(&self) -> PieceModel {
        PieceModel { col: self.col as nat, text: self.text@, style: self.style }
    }
}

/// The models of a line's pieces.
pub open spec fn piece_models(s: Seq<Piece>) -> Seq<PieceModel> {
    s.map_values(|p: Piece| p@)
}

/// The models of lines.
pub open spec fn pieces_models(s: Seq<Vec<Piece>>) -> Seq<Seq<PieceModel>> {
    s.map_values(|l: Vec<Piece>| piece_models(l@))
}

/// `t` at column `at` of a line: part of the piece before it where the style matches and nothing
/// but the space of `spaced` comes between.
pub open spec fn placed(
    line: Seq<PieceModel>,
    at: nat,
    t: Seq<char>,
    style: Style,
    spaced: bool,
) -> Seq<PieceModel> {
    let gap: nat = if spaced {
        1
    } else {
        0
    };
    let p = line.last();
    if line.len() > 0 && p.style == style && p.col + columns::columns(p.text) + gap == at {
        line.drop_last().push(
            PieceModel {
                text: p.text + if spaced {
                    " "@
                } else {
                    seq![]
                } + t,
                ..p
            },
        )
    } else {
        line.push(PieceModel { col: at, text: t, style })
    }
}

/// Lines being filled: those that are full, the one being filled and its columns.
#[verifier::ext_equal]
pub struct Filling {
    pub lines: Seq<Seq<PieceModel>>,
    pub line: Seq<PieceModel>,
    pub col: nat,
}

impl Filling {
    /// The line is full.
    pub open spec fn broken(self) -> Filling {
        Filling { lines: self.lines.push(self.line), line: seq![], col: 0 }
    }

    /// A piece of a word goes onto the line, or onto the next where it would pass `cols`. A space
    /// never begins a line.
    pub open spec fn with_chunk(self, t: Seq<char>, style: Style, spaced: bool, cols: nat) -> Filling {
        let gap: nat = if spaced {
            1
        } else {
            0
        };
        let w = columns::columns(t) as nat;
        if self.col > 0 && self.col + gap + w > cols {
            let s = self.broken();
            Filling { line: placed(s.line, 0, t, style, false), col: w, ..s }
        } else if self.col > 0 {
            Filling {
                line: placed(self.line, self.col + gap, t, style, spaced),
                col: self.col + gap + w,
                ..self
            }
        } else {
            Filling { line: placed(self.line, 0, t, style, false), col: w, ..self }
        }
    }

    /// The first `n` pieces of a word go on; the space before it goes before the first only.
    pub open spec fn with_chunks(
        self,
        chunks: Seq<Seq<char>>,
        style: Style,
        spaced: bool,
        cols: nat,
        n: nat,
    ) -> Filling
        decreases n,
    {
        if n == 0 || n > chunks.len() {
            self
        } else {
            self.with_chunks(chunks, style, spaced, cols, (n - 1) as nat).with_chunk(
                chunks[n - 1],
                style,
                spaced && n == 1,
                cols,
            )
        }
    }

    /// A token goes on.
    pub open spec fn with_tok(self, t: TokModel, cols: nat) -> Filling {
        match t {
            TokModel::Break => self.broken(),
            TokModel::Word { text, style, space_before } => {
                let chunks = chunks_of(text, cols);
                self.with_chunks(chunks, style, space_before, cols, chunks.len())
            },
        }
    }

    /// Tokens go on, first to last.
    pub open spec fn with_toks(self, toks: Seq<TokModel>, cols: nat) -> Filling
        decreases toks.len(),
    {
        if toks.len() == 0 {
            self
        } else {
            self.with_toks(toks.drop_last(), cols).with_tok(toks.last(), cols)
        }
    }
}

/// Inlines broken onto lines of `cols` columns, each word on the first line that has room for it.
pub open spec fn wrapped(inlines: Seq<InlineModel>, cols: nat, base: Style) -> Seq<
    Seq<PieceModel>,
> {
    let f = Filling { lines: seq![], line: seq![], col: 0 }.with_toks(
        tokens_of(inlines, base).out,
        cols,
    );
    if f.line.len() > 0 {
        f.lines.push(f.line)
    } else {
        f.lines
    }
}

/// The words of `s`.
fn split_words(s: &[char]) -> (r: Vec<Vec<char>>)
    ensures
        word_views(r@) == words(s@),
{
    let mut out: Vec<Vec<char>> = Vec::new();
    let mut i: usize = 0;
    while i < s.len()
        invariant
            i <= s@.len(),
            word_views(out@) =~= words(s@.take(i as int)),
            i > 0 && !text::is_space(s@[i - 1]) ==> out@.len() > 0,
        decreases s.len() - i,
    {
        let ghost part = s@.take(i + 1);
        let ghost before = out@;
        assert(part.drop_last() =~= s@.take(i as int));
        if !space(s[i]) {
            if i == 0 || space(s[i - 1]) {
                let mut word: Vec<char> = Vec::new();
                word.push(s[i]);
                assert(word@ =~= seq![s@[i as int]]);
                out.push(word);
                assert(word_views(out@) =~= word_views(before).push(word@));
            } else {
                match out.pop() {
                    Some(mut word) => {
                        let ghost was = word@;
                        word.push(s[i]);
                        out.push(word);
                        assert(word_views(out@) =~= word_views(before).drop_last().push(
                            was.push(s@[i as int]),
                        ));
                    },
                    None => {},
                }
            }
        }
        i += 1;
    }
    assert(s@.take(i as int) =~= s@);
    out
}

/// The characters of each word.
pub open spec fn word_views(s: Seq<Vec<char>>) -> Seq<Seq<char>> {
    s.map_values(|w: Vec<char>| w@)
}

/// A string in square brackets.
fn bracketed(s: &str) -> (r: String)
    ensures
        r@ == "["@ + s@ + "]"@,
{
    let mut out = "[".to_owned();
    out.push_str(s);
    out.push_str("]");
    out
}

/// A number in square brackets.
fn bracketed_number(n: usize) -> (r: String)
    ensures
        r@ == "["@ + text::dec(n as nat) + "]"@,
{
    let mut out = "[".to_owned();
    push_dec(&mut out, n as u64);
    out.push_str("]");
    out
}

/// The words of a text behind the tokens read so far, and whether whitespace stands behind them.
fn push_text(out: &mut Vec<Tok>, t: &str, style: Style, base: Style, gap: bool) -> (r: bool)
    ensures
        (Toks { out: tok_models(final(out)@), gap: r }) == with_inline(
            (Toks { out: tok_models(old(out)@), gap }),
            (InlineModel::Text { text: t@, style }),
            base,
        ),
{
    let style = Style {
        bold: style.bold || base.bold,
        italic: style.italic || base.italic,
        code: style.code,
        strike: style.strike,
        link: style.link,
    };
    let chars = chars_of(t);
    let found = split_words(&chars);
    let ghost start = tok_models(old(out)@);
    let ghost ws = words(t@);
    assert(start + Seq::new(0, |k: int| word_tok(t@, style, gap, k)) =~= start);
    let n: usize = found.len();
    proof {
        lemma_words_in_text(t@);
    }
    let mut i: usize = 0;
    while i < n
        invariant
            i <= n == found@.len(),
            chars@ == t@,
            ws == words(t@),
            word_views(found@) == ws,
            n > 0 ==> t@.len() > 0,
            tok_models(out@) =~= start + Seq::new(
                i as nat,
                |k: int| word_tok(t@, style, gap, k),
            ),
        decreases n - i,
    {
        assert(found@[i as int]@ == ws[i as int]);
        let before = if i == 0 {
            gap || space(chars[0])
        } else {
            true
        };
        let text = string_of(&found[i], 0, found[i].len());
        assert(text@ =~= ws[i as int]);
        let tok = Tok::Word { text, style, space_before: before };
        let ghost had = out@;
        out.push(tok);
        assert(tok_models(out@) =~= tok_models(had).push(tok@));
        assert(tok@ == word_tok(t@, style, gap, i as int));
        i += 1;
    }
    if n == 0 {
        gap || chars.len() > 0
    } else {
        space(chars[chars.len() - 1])
    }
}

proof fn lemma_words_in_text(s: Seq<char>)
    ensures
        words(s).len() <= s.len(),
    decreases s.len(),
{
    if s.len() > 0 {
        lemma_words_in_text(s.drop_last());
        lemma_words_begun(s.drop_last());
    }
}

/// A text that ends in a word has one.
proof fn lemma_words_begun(s: Seq<char>)
    ensures
        s.len() > 0 && !text::is_space(s.last()) ==> words(s).len() > 0,
    decreases s.len(),
{
    if s.len() > 0 {
        lemma_words_begun(s.drop_last());
    }
}

/// The words of a text are none of them empty.
pub proof fn lemma_words_are_some(s: Seq<char>)
    ensures
        forall|i: int| 0 <= i < words(s).len() ==> (#[trigger] words(s)[i]).len() > 0,
    decreases s.len(),
{
    if s.len() > 0 {
        lemma_words_are_some(s.drop_last());
        let before = words(s.drop_last());
        let after = words(s);
        assert forall|i: int| 0 <= i < after.len() implies (#[trigger] after[i]).len() > 0 by {
            if i < before.len() && after[i] == before[i] {
                assert(before[i].len() > 0);
            }
        }
    }
}

/// Whether no word is empty.
pub open spec fn words_are_some(toks: Seq<TokModel>) -> bool {
    forall|i: int|
        0 <= i < toks.len() ==> ((#[trigger] toks[i]) matches TokModel::Word { text, .. }
            ==> text.len() > 0)
}

/// No token is an empty word.
pub proof fn lemma_tokens_are_some(inlines: Seq<InlineModel>, base: Style)
    ensures
        words_are_some(tokens_of(inlines, base).out),
    decreases inlines.len(),
{
    if inlines.len() > 0 {
        lemma_tokens_are_some(inlines.drop_last(), base);
        let before = tokens_of(inlines.drop_last(), base).out;
        let after = tokens_of(inlines, base).out;
        reveal_strlit("[");
        if let InlineModel::Text { text: t, style } = inlines.last() {
            lemma_words_are_some(t);
        }
        assert forall|i: int| 0 <= i < after.len() implies ((
        #[trigger] after[i]) matches TokModel::Word { text, .. } ==> text.len() > 0) by {
            if i < before.len() {
                assert(after[i] == before[i]);
            }
        }
    }
}

/// Whether the tokens are words of printable ASCII.
pub open spec fn plain_words(toks: Seq<TokModel>) -> bool {
    forall|i: int|
        0 <= i < toks.len() ==> ((#[trigger] toks[i]) matches TokModel::Word { text, .. }
            && columns::is_plain(text))
}

/// The characters of words on one line, and the spaces between them.
pub open spec fn plain_cols(toks: Seq<TokModel>) -> nat
    decreases toks.len(),
{
    if toks.len() == 0 {
        0
    } else {
        let before = plain_cols(toks.drop_last());
        match toks.last() {
            TokModel::Word { text, style, space_before } => before + text.len() + if space_before
                && toks.len() > 1 {
                1nat
            } else {
                0nat
            },
            TokModel::Break => before,
        }
    }
}

/// Whether the line being filled ends in printable ASCII, in the column it is filled to.
spec fn plain_end(f: Filling) -> bool {
    if f.line.len() == 0 {
        f.col == 0
    } else {
        let p = f.line.last();
        f.col > 0 && columns::is_plain(p.text) && p.col + p.text.len() == f.col
    }
}

/// Where `n` characters behind what a line holds would end, a space before them where `spaced`.
spec fn reach(f: Filling, n: nat, spaced: bool) -> nat {
    if f.col == 0 {
        n
    } else {
        f.col + n + if spaced {
            1nat
        } else {
            0nat
        }
    }
}

/// Flatten inlines to words, remembering where the whitespace was.
pub fn tokens(inlines: &Vec<Inline>, base: Style) -> (r: Vec<Tok>)
    ensures
        tok_models(r@) == tokens_of(parse::inline_models(inlines@), base).out,
{
    let mut out: Vec<Tok> = Vec::new();
    let mut gap = false;
    let ghost all = parse::inline_models(inlines@);
    let mut i: usize = 0;
    while i < inlines.len()
        invariant
            i <= inlines@.len(),
            all == parse::inline_models(inlines@),
            (Toks { out: tok_models(out@), gap }) =~= tokens_of(all.take(i as int), base),
        decreases inlines.len() - i,
    {
        let ghost had = out@;
        assert(all.take(i + 1).drop_last() =~= all.take(i as int));
        assert(all[i as int] == inlines@[i as int]@);
        match &inlines[i] {
            Inline::Break => {
                out.push(Tok::Break);
                assert(tok_models(out@) =~= tok_models(had).push(TokModel::Break));
                gap = false;
            },
            Inline::Image { alt } => {
                let tok = Tok::Word {
                    text: bracketed(alt.as_str()),
                    style: Style { italic: true, ..base },
                    space_before: gap,
                };
                out.push(tok);
                assert(tok_models(out@) =~= tok_models(had).push(tok@));
                gap = false;
            },
            Inline::Note { number } => {
                let tok = Tok::Word {
                    text: bracketed_number(*number),
                    style: Style { link: true, ..base },
                    space_before: gap,
                };
                out.push(tok);
                assert(tok_models(out@) =~= tok_models(had).push(tok@));
                gap = false;
            },
            Inline::Text { text, style } => {
                gap = push_text(&mut out, text.as_str(), *style, base, gap);
            },
        }
        i += 1;
    }
    assert(all.take(i as int) =~= all);
    out
}

/// Break `s` into chunks of at most `cols` display columns, never splitting a `char`.
pub fn hard_split(s: &str, cols: usize) -> (r: Vec<String>)
    ensures
        text::strings(r@) == chunks_of(s@, cols as nat),
        columns::is_plain(s@) && s@.len() <= cols ==> text::strings(r@) == seq![s@],
        columns::is_plain(s@) && s@.len() > cols >= 1 ==> {
            &&& r@.len() >= 2
            &&& r@[0]@.len() == cols
            &&& forall|i: int|
                0 <= i < r@.len() ==> columns::is_plain((#[trigger] r@[i])@) && r@[i]@.len() > 0
        },
{
    let mut out: Vec<String> = Vec::new();
    if width(s) <= cols {
        out.push(s.to_owned());
        assert(text::strings(out@) =~= seq![s@]);
        return out;
    }
    let chars = chars_of(s);
    let mut cur = String::new();
    let mut filled = false;
    let mut w: usize = 0;
    let mut i: usize = 0;
    while i < chars.len()
        invariant
            chars@ == s@,
            i <= chars@.len(),
            (Split { done: text::strings(out@), cur: cur@, w: w as nat }) =~= split_state(
                s@.take(i as int),
                cols as nat,
            ),
            filled == (cur@.len() > 0),
            !filled ==> w == 0,
            w <= cols || w <= 255,
            columns::is_plain(s@) && cols >= 1 ==> {
                &&& w == cur@.len() <= cols
                &&& columns::is_plain(cur@)
                &&& i > 0 ==> filled
                &&& out@.len() == 0 ==> i == w
                &&& forall|k: int|
                    0 <= k < out@.len() ==> columns::is_plain((#[trigger] out@[k])@)
                        && out@[k]@.len() == cols
            },
        decreases chars.len() - i,
    {
        let ghost had = out@;
        assert(s@.take(i + 1).drop_last() =~= s@.take(i as int));
        let c = chars[i];
        let cw: usize = cols_of(c);
        if filled && (w > cols || cw > cols - w) {
            let full = cur;
            cur = String::new();
            out.push(full);
            assert(text::strings(out@) =~= text::strings(had).push(full@));
            assert(out@ =~= had.push(full));
            w = 0;
        }
        cur.push(c);
        filled = true;
        w = w + cw;
        i += 1;
    }
    assert(s@.take(i as int) =~= s@);
    if filled {
        let ghost had = out@;
        out.push(cur);
        assert(text::strings(out@) =~= text::strings(had).push(cur@));
        assert(out@ =~= had.push(cur));
    }
    out
}

/// Append `text` at column `at`, joining the previous piece when the style matches.
fn place(line: &mut Vec<Piece>, at: usize, text: &str, style: Style, spaced: bool)
    ensures
        piece_models(final(line)@) == placed(
            piece_models(old(line)@),
            at as nat,
            text@,
            style,
            spaced,
        ),
        columns::is_plain(text@) && (old(line)@.len() > 0 ==> columns::is_plain(
            old(line)@.last().text@,
        ) && old(line)@.last().col + old(line)@.last().text@.len() + (if spaced {
            1nat
        } else {
            0nat
        }) == at) ==> final(line)@.len() > 0 && columns::is_plain(final(line)@.last().text@)
            && final(line)@.last().col + final(line)@.last().text@.len() == at + text@.len(),
{
    let ghost before = line@;
    let gap: usize = if spaced {
        1
    } else {
        0
    };
    // one run per sentence rather than one per word
    match line.pop() {
        Some(mut p) => {
            assert(piece_models(line@) =~= piece_models(before).drop_last());
            let ghost kept = line@;
            let w: usize = width(p.text.as_str());
            if p.style == style && p.col <= at && w <= at - p.col && at - p.col - w == gap {
                let ghost was = p.text@;
                if spaced {
                    p.text.push_str(" ");
                }
                p.text.push_str(text);
                assert(p.text@ =~= was + if spaced {
                    " "@
                } else {
                    seq![]
                } + text@);
                line.push(p);
                assert(piece_models(line@) =~= piece_models(kept).push(p@));
                proof {
                    reveal_strlit(" ");
                }
                return;
            }
            line.push(p);
            assert(line@ =~= before);
        },
        None => {},
    }
    let p = Piece { col: at, text: text.to_owned(), style };
    line.push(p);
    assert(piece_models(line@) =~= piece_models(before).push(p@));
}

/// Where filling lines stands.
struct Fill {
    lines: Vec<Vec<Piece>>,
    line: Vec<Piece>,
    col: usize,
}

impl View for Fill {
    type V = Filling;

    closed spec fn view(&self) -> Filling {
        Filling {
            lines: pieces_models(self.lines@),
            line: piece_models(self.line@),
            col: self.col as nat,
        }
    }
}

impl Fill {
    fn end_line(&mut self)
        ensures
            final(self)@ == old(self)@.broken(),
    {
        let mut line: Vec<Piece> = Vec::new();
        std::mem::swap(&mut line, &mut self.line);
        let ghost had = self.lines@;
        self.lines.push(line);
        assert(pieces_models(self.lines@) =~= pieces_models(had).push(piece_models(line@)));
        self.col = 0;
    }

    fn chunk(&mut self, t: &str, style: Style, spaced: bool, cols: usize)
        ensures
            final(self)@ == old(self)@.with_chunk(t@, style, spaced, cols as nat),
            columns::is_plain(t@) && t@.len() > 0 && plain_end(old(self)@) ==> {
                let to = reach(old(self)@, t@.len(), spaced);
                &&& plain_end(final(self)@)
                &&& final(self)@.line.len() > 0
                &&& old(self)@.col == 0 || to <= cols ==> final(self)@.lines.len() == old(
                    self,
                )@.lines.len() && final(self)@.col == to
                &&& old(self)@.col > 0 && to > cols ==> final(self)@.lines.len() == old(
                    self,
                )@.lines.len() + 1
            },
    {
        let ghost before = self.line@;
        let w: usize = width(t);
        let gap: usize = if spaced {
            1
        } else {
            0
        };
        if self.col > 0 {
            if self.col > cols || gap > cols - self.col || w > cols - self.col - gap {
                self.end_line();
            } else {
                let at: usize = self.col + gap;
                place(&mut self.line, at, t, style, spaced);
                self.col = at + w;
                return;
            }
        }
        place(&mut self.line, 0, t, style, false);
        self.col = w;
    }

    fn tok(&mut self, t: &Tok, cols: usize)
        ensures
            final(self)@ == old(self)@.with_tok(t@, cols as nat),
            t@ matches TokModel::Word { text, space_before, .. } ==> (columns::is_plain(text)
                && text.len() > 0 && cols >= 1 && plain_end(old(self)@) ==> {
                let to = reach(old(self)@, text.len(), space_before);
                &&& plain_end(final(self)@)
                &&& final(self)@.line.len() > 0
                &&& final(self)@.lines.len() >= old(self)@.lines.len()
                &&& to <= cols ==> final(self)@.lines.len() == old(self)@.lines.len()
                    && final(self)@.col == to
                &&& to > cols ==> final(self)@.lines.len() > old(self)@.lines.len()
            }),
    {
        match t {
            Tok::Break => {
                self.end_line();
            },
            Tok::Word { text, style, space_before } => {
                let chunks = hard_split(text.as_str(), cols);
                let ghost all = text::strings(chunks@);
                proof {
                    if columns::is_plain(text@) && text@.len() <= cols {
                        assert(all.len() == 1);
                        assert(all[0] == chunks@[0]@);
                    }
                }
                let mut i: usize = 0;
                while i < chunks.len()
                    invariant
                        i <= chunks@.len(),
                        all == text::strings(chunks@),
                        self@ == old(self)@.with_chunks(
                            all,
                            *style,
                            *space_before,
                            cols as nat,
                            i as nat,
                        ),
                        columns::is_plain(text@) && text@.len() > 0 && cols >= 1 ==> {
                            &&& text@.len() <= cols ==> all == seq![text@]
                            &&& text@.len() > cols ==> chunks@.len() >= 2 && chunks@[0]@.len()
                                == cols
                            &&& forall|k: int|
                                0 <= k < chunks@.len() ==> columns::is_plain(
                                    (#[trigger] chunks@[k])@,
                                ) && chunks@[k]@.len() > 0
                        },
                        columns::is_plain(text@) && text@.len() > 0 && cols >= 1 && plain_end(
                            old(self)@,
                        ) ==> {
                            let to = reach(old(self)@, text@.len(), *space_before);
                            &&& plain_end(self@)
                            &&& self@.lines.len() >= old(self)@.lines.len()
                            &&& i == 0 ==> self@ == old(self)@
                            &&& i > 0 ==> self@.line.len() > 0
                            &&& i > 0 && text@.len() <= cols && to <= cols ==> self@.lines.len()
                                == old(self)@.lines.len() && self@.col == to
                            &&& i > 0 && text@.len() <= cols && to > cols ==> self@.lines.len()
                                > old(self)@.lines.len()
                            &&& i == 1 && text@.len() > cols ==> self@.lines.len() > old(
                                self,
                            )@.lines.len() || self@.col >= cols
                            &&& i > 1 && text@.len() > cols ==> self@.lines.len() > old(
                                self,
                            )@.lines.len()
                        },
                    decreases chunks.len() - i,
                {
                    assert(all[i as int] == chunks@[i as int]@);
                    // the incoming space goes before the first chunk only;
                    // the rest are continuations of the same word
                    self.chunk(chunks[i].as_str(), *style, *space_before && i == 0, cols);
                    i += 1;
                }
            },
        }
    }
}

/// Greedy line breaking over a flattened token stream.
pub fn wrap(inlines: &Vec<Inline>, cols: usize, base: Style) -> (r: Vec<Vec<Piece>>)
    ensures
        pieces_models(r@) == wrapped(parse::inline_models(inlines@), cols as nat, base),
        ({
            let toks = tokens_of(parse::inline_models(inlines@), base).out;
            plain_words(toks) && cols >= 1 ==> {
                &&& r@.len() <= 1 <==> plain_cols(toks) <= cols
                &&& r@.len() == 0 ==> plain_cols(toks) == 0
                &&& r@.len() == 1 ==> r@[0]@.len() > 0 && r@[0]@.last().col
                    + r@[0]@.last().text@.len() == plain_cols(toks)
            }
        }),
{
    let toks = tokens(inlines, base);
    let ghost all = tok_models(toks@);
    proof {
        lemma_tokens_are_some(parse::inline_models(inlines@), base);
    }
    let mut f = Fill { lines: Vec::new(), line: Vec::new(), col: 0 };
    let ghost start = Filling { lines: seq![], line: seq![], col: 0 };
    assert(f@ =~= start);
    let mut i: usize = 0;
    while i < toks.len()
        invariant
            i <= toks@.len(),
            all == tok_models(toks@),
            f@ == start.with_toks(all.take(i as int), cols as nat),
            words_are_some(all),
            plain_words(all) && cols >= 1 ==> {
                let n = plain_cols(all.take(i as int));
                &&& plain_end(f@)
                &&& i > 0 ==> f@.line.len() > 0
                &&& i == 0 ==> f@.line.len() == 0
                &&& n <= cols ==> f@.lines.len() == 0 && f@.col == n
                &&& n > cols ==> f@.lines.len() > 0
            },
        decreases toks.len() - i,
    {
        assert(all.take(i + 1).drop_last() =~= all.take(i as int));
        assert(all[i as int] == toks@[i as int]@);
        f.tok(&toks[i], cols);
        i += 1;
    }
    assert(all.take(i as int) =~= all);
    let ghost filled = f@;
    if f.line.len() > 0 {
        f.end_line();
    }
    proof {
        assert(filled.line.len() > 0 ==> f@.lines == filled.lines.push(filled.line));
        if f.lines@.len() == 1 && filled.line.len() > 0 {
            let line = f.lines@[0]@;
            assert(f@.lines[0] == piece_models(line));
            assert(filled.line.last() == line.last()@);
        }
    }
    f.lines
}

/// Texts end to end.
pub open spec fn joined(parts: Seq<Seq<char>>) -> Seq<char>
    decreases parts.len(),
{
    if parts.len() == 0 {
        seq![]
    } else {
        joined(parts.drop_last()) + parts.last()
    }
}

/// The columns of some characters, one by one.
pub open spec fn chars_cols(s: Seq<char>) -> nat
    decreases s.len(),
{
    if s.len() == 0 {
        0
    } else {
        chars_cols(s.drop_last()) + columns::char_cols(s.last())
    }
}

/// A piece of at most `cols` columns, or of the one character that is wider.
pub open spec fn fits(s: Seq<char>, cols: nat) -> bool {
    s.len() == 1 || chars_cols(s) <= cols
}

proof fn lemma_split(s: Seq<char>, cols: nat)
    ensures
        joined(split_state(s, cols).done) + split_state(s, cols).cur == s,
        split_state(s, cols).w == chars_cols(split_state(s, cols).cur),
        fits(split_state(s, cols).cur, cols),
        forall|i: int|
            0 <= i < split_state(s, cols).done.len() ==> fits(
                #[trigger] split_state(s, cols).done[i],
                cols,
            ) && split_state(s, cols).done[i].len() > 0,
    decreases s.len(),
{
    if s.len() > 0 {
        lemma_split(s.drop_last(), cols);
        let b = split_state(s.drop_last(), cols);
        let a = split_state(s, cols);
        let c = s.last();
        if b.w + columns::char_cols(c) > cols && b.cur.len() > 0 {
            assert(a.done.drop_last() =~= b.done);
            assert(seq![c].drop_last() =~= seq![]);
            assert(chars_cols(seq![c].drop_last()) == 0);
            assert(chars_cols(a.cur) == columns::char_cols(c));
            assert(joined(a.done) + a.cur =~= (joined(b.done) + b.cur).push(c));
            assert(joined(a.done) + a.cur =~= s);
        } else {
            assert(a.cur.drop_last() =~= b.cur);
            assert(joined(a.done) + a.cur =~= (joined(b.done) + b.cur).push(c));
            assert(joined(a.done) + a.cur =~= s);
        }
    } else {
        assert(joined(split_state(s, cols).done) + split_state(s, cols).cur =~= s);
    }
}

/// A word that is too long is split rather than lost: the pieces, end to end, are the word, and
/// each fits the columns or is a single character.
pub proof fn law_split_keeps_text(s: Seq<char>, cols: nat)
    ensures
        joined(chunks_of(s, cols)) == s,
        columns::columns(s) > cols ==> forall|i: int|
            0 <= i < chunks_of(s, cols).len() ==> fits(#[trigger] chunks_of(s, cols)[i], cols),
        columns::columns(s) <= cols ==> chunks_of(s, cols) == seq![s],
{
    if columns::columns(s) <= cols {
        assert(seq![s].drop_last() =~= seq![]);
        assert(joined(seq![s].drop_last()) =~= seq![]);
        assert(joined(seq![s]) =~= s);
    } else {
        lemma_split(s, cols);
        let b = split_state(s, cols);
        if b.cur.len() > 0 {
            assert(b.done.push(b.cur).drop_last() =~= b.done);
            assert(joined(chunks_of(s, cols)) =~= s);
        } else {
            assert(joined(b.done) + b.cur =~= joined(b.done));
        }
    }
}

/// The text of a line's pieces, without its spaces.
pub open spec fn line_ink(line: Seq<PieceModel>) -> Seq<char>
    decreases line.len(),
{
    if line.len() == 0 {
        seq![]
    } else {
        line_ink(line.drop_last()) + ink(line.last().text)
    }
}

/// The text of lines, without its spaces.
pub open spec fn lines_ink(lines: Seq<Seq<PieceModel>>) -> Seq<char>
    decreases lines.len(),
{
    if lines.len() == 0 {
        seq![]
    } else {
        lines_ink(lines.drop_last()) + line_ink(lines.last())
    }
}

/// The characters of `s` that are no spaces.
pub open spec fn ink(s: Seq<char>) -> Seq<char>
    decreases s.len(),
{
    if s.len() == 0 {
        seq![]
    } else if s.last() == ' ' {
        ink(s.drop_last())
    } else {
        ink(s.drop_last()).push(s.last())
    }
}

/// The words of tokens, end to end and without spaces.
pub open spec fn toks_ink(toks: Seq<TokModel>) -> Seq<char>
    decreases toks.len(),
{
    if toks.len() == 0 {
        seq![]
    } else {
        toks_ink(toks.drop_last()) + match toks.last() {
            TokModel::Word { text, style, space_before } => ink(text),
            TokModel::Break => seq![],
        }
    }
}

proof fn lemma_ink(a: Seq<char>, b: Seq<char>)
    ensures
        ink(a + b) == ink(a) + ink(b),
    decreases b.len(),
{
    if b.len() == 0 {
        assert(a + b =~= a);
        assert(ink(a) + ink(b) =~= ink(a));
    } else {
        lemma_ink(a, b.drop_last());
        assert((a + b).drop_last() =~= a + b.drop_last());
        assert(ink(a + b) =~= ink(a) + ink(b));
    }
}

proof fn lemma_placed_ink(
    line: Seq<PieceModel>,
    at: nat,
    t: Seq<char>,
    style: Style,
    spaced: bool,
)
    ensures
        line_ink(placed(line, at, t, style, spaced)) == line_ink(line) + ink(t),
        placed(line, at, t, style, spaced).len() > 0,
{
    let after = placed(line, at, t, style, spaced);
    let p = line.last();
    if line.len() > 0 && after.len() == line.len() {
        let sp = if spaced {
            " "@
        } else {
            seq![]
        };
        reveal_strlit(" ");
        assert(ink(sp) =~= seq![]) by {
            if spaced {
                assert(sp.drop_last() =~= seq![]);
                assert(ink(sp.drop_last()) =~= seq![]);
            }
        }
        lemma_ink(p.text, sp);
        lemma_ink(p.text + sp, t);
        assert(after.drop_last() =~= line.drop_last());
        assert(line_ink(after) =~= line_ink(line) + ink(t));
    } else {
        assert(after.drop_last() =~= line);
    }
}

/// What filled lines hold, without its spaces.
pub open spec fn filling_ink(f: Filling) -> Seq<char> {
    lines_ink(f.lines) + line_ink(f.line)
}

proof fn lemma_broken_ink(f: Filling)
    ensures
        filling_ink(f.broken()) == filling_ink(f),
{
    assert(f.broken().lines.drop_last() =~= f.lines);
    assert(filling_ink(f.broken()) =~= filling_ink(f));
}

proof fn lemma_chunk_ink(f: Filling, t: Seq<char>, style: Style, spaced: bool, cols: nat)
    ensures
        filling_ink(f.with_chunk(t, style, spaced, cols)) == filling_ink(f) + ink(t),
{
    let gap: nat = if spaced {
        1
    } else {
        0
    };
    lemma_broken_ink(f);
    lemma_placed_ink(f.broken().line, 0, t, style, false);
    lemma_placed_ink(f.line, f.col + gap, t, style, spaced);
    lemma_placed_ink(f.line, 0, t, style, false);
    assert(filling_ink(f.with_chunk(t, style, spaced, cols)) =~= filling_ink(f) + ink(t));
}

proof fn lemma_chunks_ink(
    f: Filling,
    chunks: Seq<Seq<char>>,
    style: Style,
    spaced: bool,
    cols: nat,
    n: nat,
)
    requires
        n <= chunks.len(),
    ensures
        filling_ink(f.with_chunks(chunks, style, spaced, cols, n)) == filling_ink(f) + ink(
            joined(chunks.take(n as int)),
        ),
    decreases n,
{
    if n == 0 {
        assert(chunks.take(0) =~= seq![]);
        assert(filling_ink(f) + ink(joined(chunks.take(0))) =~= filling_ink(f));
    } else {
        let m = (n - 1) as nat;
        lemma_chunks_ink(f, chunks, style, spaced, cols, m);
        let b = f.with_chunks(chunks, style, spaced, cols, m);
        lemma_chunk_ink(b, chunks[m as int], style, spaced && n == 1, cols);
        assert(chunks.take(n as int).drop_last() =~= chunks.take(m as int));
        lemma_ink(joined(chunks.take(m as int)), chunks[m as int]);
        assert(filling_ink(f.with_chunks(chunks, style, spaced, cols, n)) =~= filling_ink(f) + ink(
            joined(chunks.take(n as int)),
        ));
    }
}

proof fn lemma_toks_ink(f: Filling, toks: Seq<TokModel>, cols: nat)
    ensures
        filling_ink(f.with_toks(toks, cols)) == filling_ink(f) + toks_ink(toks),
    decreases toks.len(),
{
    if toks.len() == 0 {
        assert(filling_ink(f) + toks_ink(toks) =~= filling_ink(f));
    } else {
        lemma_toks_ink(f, toks.drop_last(), cols);
        let b = f.with_toks(toks.drop_last(), cols);
        match toks.last() {
            TokModel::Break => {
                lemma_broken_ink(b);
                assert(toks_ink(toks) =~= toks_ink(toks.drop_last()));
            },
            TokModel::Word { text, style, space_before } => {
                let chunks = chunks_of(text, cols);
                lemma_chunks_ink(b, chunks, style, space_before, cols, chunks.len());
                assert(chunks.take(chunks.len() as int) =~= chunks);
                law_split_keeps_text(text, cols);
                assert(filling_ink(f.with_toks(toks, cols)) =~= filling_ink(f) + toks_ink(toks));
            },
        }
    }
}

/// Wrapping loses nothing: whatever the width, the lines hold the words and nothing else, in
/// order.
pub proof fn law_wrap_keeps_text(inlines: Seq<InlineModel>, cols: nat, base: Style)
    ensures
        lines_ink(wrapped(inlines, cols, base)) == toks_ink(tokens_of(inlines, base).out),
{
    let start = Filling { lines: seq![], line: seq![], col: 0 };
    let toks = tokens_of(inlines, base).out;
    lemma_toks_ink(start, toks, cols);
    let f = start.with_toks(toks, cols);
    assert(filling_ink(start) + toks_ink(toks) =~= toks_ink(toks));
    if f.line.len() > 0 {
        assert(f.lines.push(f.line).drop_last() =~= f.lines);
    } else {
        assert(filling_ink(f) =~= lines_ink(f.lines));
    }
}

/// A line takes no more than `cols` columns, or holds a single piece of a word and nothing before
/// it: a piece goes onto a line that has others only where it fits behind them.
pub proof fn law_chunk_fits(f: Filling, t: Seq<char>, style: Style, spaced: bool, cols: nat)
    ensures
        ({
            let after = f.with_chunk(t, style, spaced, cols);
            let w = columns::columns(t) as nat;
            &&& after.col <= cols || after.col == w
            &&& after.lines.len() > f.lines.len() ==> f.col > 0 && f.col + (if spaced {
                1nat
            } else {
                0nat
            }) + w > cols && after.col == w
            &&& after.lines.len() == f.lines.len() && f.col > 0 ==> after.col <= cols
        }),
{
}

/// A line never starts with the space it broke on: what begins a line begins at its first column.
pub proof fn law_line_starts_at_its_edge(
    f: Filling,
    t: Seq<char>,
    style: Style,
    spaced: bool,
    cols: nat,
)
    requires
        f.line.len() == 0 ==> f.col == 0,
        f.line.len() > 0 ==> f.line[0].col == 0,
    ensures
        f.with_chunk(t, style, spaced, cols).line.len() > 0,
        f.with_chunk(t, style, spaced, cols).line[0].col == 0,
{
}

/// Characters, each with the style it is set in.
pub open spec fn styled(s: Seq<char>, style: Style) -> Seq<(char, Style)> {
    s.map_values(|c: char| (c, style))
}

/// The characters of `s` that are no whitespace.
pub open spec fn solid(s: Seq<char>) -> Seq<char>
    decreases s.len(),
{
    if s.len() == 0 {
        seq![]
    } else if text::is_space(s.last()) {
        solid(s.drop_last())
    } else {
        solid(s.drop_last()).push(s.last())
    }
}

/// What a line says in which style, without its spaces.
pub open spec fn line_styled(line: Seq<PieceModel>) -> Seq<(char, Style)>
    decreases line.len(),
{
    if line.len() == 0 {
        seq![]
    } else {
        line_styled(line.drop_last()) + styled(ink(line.last().text), line.last().style)
    }
}

/// What lines say in which style, without their spaces.
pub open spec fn lines_styled(lines: Seq<Seq<PieceModel>>) -> Seq<(char, Style)>
    decreases lines.len(),
{
    if lines.len() == 0 {
        seq![]
    } else {
        lines_styled(lines.drop_last()) + line_styled(lines.last())
    }
}

/// What tokens say in which style, without their spaces.
pub open spec fn toks_styled(toks: Seq<TokModel>) -> Seq<(char, Style)>
    decreases toks.len(),
{
    if toks.len() == 0 {
        seq![]
    } else {
        toks_styled(toks.drop_last()) + match toks.last() {
            TokModel::Word { text, style, space_before } => styled(ink(text), style),
            TokModel::Break => seq![],
        }
    }
}

/// What inlines say in which style, in text whose own style is `base`, without their spaces: text is
/// bold or italic where it is or the text around it is, and code, struck or a link where it is; a
/// picture is its description in italic, in brackets, and a footnote its number, as a link.
pub open spec fn inlines_styled(inlines: Seq<InlineModel>, base: Style) -> Seq<(char, Style)>
    decreases inlines.len(),
{
    if inlines.len() == 0 {
        seq![]
    } else {
        inlines_styled(inlines.drop_last(), base) + match inlines.last() {
            InlineModel::Text { text, style } => styled(
                solid(text),
                Style {
                    bold: style.bold || base.bold,
                    italic: style.italic || base.italic,
                    code: style.code,
                    strike: style.strike,
                    link: style.link,
                },
            ),
            InlineModel::Image { alt } => styled(
                ink(seq!['['] + alt + seq![']']),
                Style { italic: true, ..base },
            ),
            InlineModel::Note { number } => styled(
                seq!['['] + text::dec(number) + seq![']'],
                Style { link: true, ..base },
            ),
            InlineModel::Break => seq![],
        }
    }
}

proof fn lemma_styled(a: Seq<char>, b: Seq<char>, style: Style)
    ensures
        styled(a + b, style) == styled(a, style) + styled(b, style),
{
    assert(styled(a + b, style) =~= styled(a, style) + styled(b, style));
}

proof fn lemma_placed_styled(
    line: Seq<PieceModel>,
    at: nat,
    t: Seq<char>,
    style: Style,
    spaced: bool,
)
    ensures
        line_styled(placed(line, at, t, style, spaced)) == line_styled(line) + styled(ink(t), style),
{
    let after = placed(line, at, t, style, spaced);
    let p = line.last();
    if line.len() > 0 && after.len() == line.len() {
        let sp = if spaced {
            " "@
        } else {
            seq![]
        };
        reveal_strlit(" ");
        assert(ink(sp) =~= seq![]) by {
            if spaced {
                assert(sp.drop_last() =~= seq![]);
                assert(ink(sp.drop_last()) =~= seq![]);
            }
        }
        lemma_ink(p.text, sp);
        lemma_ink(p.text + sp, t);
        assert(after.drop_last() =~= line.drop_last());
        assert(ink(p.text) + ink(sp) + ink(t) =~= ink(p.text) + ink(t));
        lemma_styled(ink(p.text), ink(t), style);
        assert(line_styled(after) =~= line_styled(line) + styled(ink(t), style));
    } else {
        assert(after.drop_last() =~= line);
    }
}

/// What filled lines say in which style.
spec fn filling_styled(f: Filling) -> Seq<(char, Style)> {
    lines_styled(f.lines) + line_styled(f.line)
}

proof fn lemma_broken_styled(f: Filling)
    ensures
        filling_styled(f.broken()) == filling_styled(f),
{
    assert(f.broken().lines.drop_last() =~= f.lines);
    assert(filling_styled(f.broken()) =~= filling_styled(f));
}

proof fn lemma_chunk_styled(f: Filling, t: Seq<char>, style: Style, spaced: bool, cols: nat)
    ensures
        filling_styled(f.with_chunk(t, style, spaced, cols)) == filling_styled(f) + styled(
            ink(t),
            style,
        ),
{
    let gap: nat = if spaced {
        1
    } else {
        0
    };
    lemma_broken_styled(f);
    lemma_placed_styled(f.broken().line, 0, t, style, false);
    lemma_placed_styled(f.line, f.col + gap, t, style, spaced);
    lemma_placed_styled(f.line, 0, t, style, false);
    assert(filling_styled(f.with_chunk(t, style, spaced, cols)) =~= filling_styled(f) + styled(
        ink(t),
        style,
    ));
}

proof fn lemma_chunks_styled(
    f: Filling,
    chunks: Seq<Seq<char>>,
    style: Style,
    spaced: bool,
    cols: nat,
    n: nat,
)
    requires
        n <= chunks.len(),
    ensures
        filling_styled(f.with_chunks(chunks, style, spaced, cols, n)) == filling_styled(f) + styled(
            ink(joined(chunks.take(n as int))),
            style,
        ),
    decreases n,
{
    if n == 0 {
        assert(chunks.take(0) =~= seq![]);
        assert(filling_styled(f) + styled(ink(joined(chunks.take(0))), style) =~= filling_styled(f));
    } else {
        let m = (n - 1) as nat;
        lemma_chunks_styled(f, chunks, style, spaced, cols, m);
        let b = f.with_chunks(chunks, style, spaced, cols, m);
        lemma_chunk_styled(b, chunks[m as int], style, spaced && n == 1, cols);
        assert(chunks.take(n as int).drop_last() =~= chunks.take(m as int));
        lemma_ink(joined(chunks.take(m as int)), chunks[m as int]);
        lemma_styled(ink(joined(chunks.take(m as int))), ink(chunks[m as int]), style);
        assert(filling_styled(f.with_chunks(chunks, style, spaced, cols, n)) =~= filling_styled(f)
            + styled(ink(joined(chunks.take(n as int))), style));
    }
}

proof fn lemma_toks_styled(f: Filling, toks: Seq<TokModel>, cols: nat)
    ensures
        filling_styled(f.with_toks(toks, cols)) == filling_styled(f) + toks_styled(toks),
    decreases toks.len(),
{
    if toks.len() == 0 {
        assert(filling_styled(f) + toks_styled(toks) =~= filling_styled(f));
    } else {
        lemma_toks_styled(f, toks.drop_last(), cols);
        let b = f.with_toks(toks.drop_last(), cols);
        match toks.last() {
            TokModel::Break => {
                lemma_broken_styled(b);
                assert(toks_styled(toks) =~= toks_styled(toks.drop_last()));
            },
            TokModel::Word { text, style, space_before } => {
                let chunks = chunks_of(text, cols);
                lemma_chunks_styled(b, chunks, style, space_before, cols, chunks.len());
                assert(chunks.take(chunks.len() as int) =~= chunks);
                law_split_keeps_text(text, cols);
                assert(filling_styled(f.with_toks(toks, cols)) =~= filling_styled(f) + toks_styled(
                    toks,
                ));
            },
        }
    }
}

proof fn lemma_words_joined(s: Seq<char>)
    ensures
        joined(words(s)) == solid(s),
    decreases s.len(),
{
    if s.len() > 0 {
        lemma_words_joined(s.drop_last());
        lemma_words_begun(s.drop_last());
        let before = words(s.drop_last());
        let after = words(s);
        if !text::is_space(s.last()) {
            if s.len() == 1 || text::is_space(s[s.len() - 2]) {
                assert(after.drop_last() =~= before);
            } else {
                assert(s.drop_last().last() == s[s.len() - 2]);
                assert(after.drop_last() =~= before.drop_last());
            }
            assert(joined(after) =~= solid(s));
        }
    }
}

proof fn lemma_solid_has_no_space(s: Seq<char>)
    ensures
        ink(solid(s)) == solid(s),
    decreases s.len(),
{
    if s.len() > 0 {
        lemma_solid_has_no_space(s.drop_last());
        if !text::is_space(s.last()) {
            assert(solid(s).drop_last() =~= solid(s.drop_last()));
            assert(solid(s).last() != ' ');
        }
    }
}

proof fn lemma_toks_styled_joins(a: Seq<TokModel>, b: Seq<TokModel>)
    ensures
        toks_styled(a + b) == toks_styled(a) + toks_styled(b),
    decreases b.len(),
{
    if b.len() == 0 {
        assert(a + b =~= a);
        assert(toks_styled(a) + toks_styled(b) =~= toks_styled(a));
    } else {
        lemma_toks_styled_joins(a, b.drop_last());
        assert((a + b).drop_last() =~= a + b.drop_last());
        assert(toks_styled(a + b) =~= toks_styled(a) + toks_styled(b));
    }
}

proof fn lemma_words_styled(t: Seq<char>, style: Style, gap: bool, n: nat)
    requires
        n <= words(t).len(),
    ensures
        toks_styled(Seq::new(n, |i: int| word_tok(t, style, gap, i))) == styled(
            ink(joined(words(t).take(n as int))),
            style,
        ),
    decreases n,
{
    let toks = Seq::new(n, |i: int| word_tok(t, style, gap, i));
    if n == 0 {
        assert(words(t).take(0) =~= seq![]);
        assert(toks_styled(toks) =~= styled(ink(joined(words(t).take(0))), style));
    } else {
        let m = (n - 1) as nat;
        lemma_words_styled(t, style, gap, m);
        assert(toks.drop_last() =~= Seq::new(m, |i: int| word_tok(t, style, gap, i)));
        assert(words(t).take(n as int).drop_last() =~= words(t).take(m as int));
        lemma_ink(joined(words(t).take(m as int)), words(t)[m as int]);
        lemma_styled(ink(joined(words(t).take(m as int))), ink(words(t)[m as int]), style);
    }
}

proof fn lemma_tokens_styled(inlines: Seq<InlineModel>, base: Style)
    ensures
        toks_styled(tokens_of(inlines, base).out) == inlines_styled(inlines, base),
    decreases inlines.len(),
{
    if inlines.len() > 0 {
        lemma_tokens_styled(inlines.drop_last(), base);
        let before = tokens_of(inlines.drop_last(), base);
        let after = tokens_of(inlines, base);
        reveal_strlit("[");
        reveal_strlit("]");
        match inlines.last() {
            InlineModel::Break => {
                assert(after.out.drop_last() =~= before.out);
                assert(toks_styled(after.out) =~= inlines_styled(inlines, base));
            },
            InlineModel::Image { alt } => {
                assert(after.out.drop_last() =~= before.out);
                assert("["@ + alt + "]"@ =~= seq!['['] + alt + seq![']']);
                assert(toks_styled(after.out) =~= inlines_styled(inlines, base));
            },
            InlineModel::Note { number } => {
                assert(after.out.drop_last() =~= before.out);
                let t = seq!['['] + text::dec(number) + seq![']'];
                assert("["@ + text::dec(number) + "]"@ =~= t);
                text::lemma_dec(number);
                assert forall|i: int| 0 <= i < t.len() implies t[i] != ' ' by {
                    if 1 <= i < t.len() - 1 {
                        assert(text::is_digit(text::dec(number)[i - 1]));
                    }
                }
                lemma_no_space_ink(t);
                assert(toks_styled(after.out) =~= inlines_styled(inlines, base));
            },
            InlineModel::Text { text: t, style } => {
                let st = inside(style, base);
                let more = Seq::new(words(t).len(), |i: int| word_tok(t, st, before.gap, i));
                lemma_words_styled(t, st, before.gap, words(t).len());
                assert(words(t).take(words(t).len() as int) =~= words(t));
                lemma_words_joined(t);
                lemma_solid_has_no_space(t);
                lemma_toks_styled_joins(before.out, more);
                assert(after.out =~= before.out + more);
            },
        }
    }
}

proof fn lemma_no_space_ink(t: Seq<char>)
    requires
        forall|i: int| 0 <= i < t.len() ==> t[i] != ' ',
    ensures
        ink(t) == t,
    decreases t.len(),
{
    if t.len() > 0 {
        lemma_no_space_ink(t.drop_last());
        assert(ink(t) =~= t);
    }
}

/// Wrapping keeps what is said and how: whatever the width, the lines say every character of the text
/// that is no whitespace, in order, each in the style that it was written in.
pub proof fn law_wrap_keeps_styles(inlines: Seq<InlineModel>, cols: nat, base: Style)
    ensures
        lines_styled(wrapped(inlines, cols, base)) == inlines_styled(inlines, base),
{
    let start = Filling { lines: seq![], line: seq![], col: 0 };
    let toks = tokens_of(inlines, base).out;
    lemma_tokens_styled(inlines, base);
    lemma_toks_styled(start, toks, cols);
    let f = start.with_toks(toks, cols);
    assert(filling_styled(start) + toks_styled(toks) =~= toks_styled(toks));
    if f.line.len() > 0 {
        assert(f.lines.push(f.line).drop_last() =~= f.lines);
    } else {
        assert(filling_styled(f) =~= lines_styled(f.lines));
    }
}

/// Whether every line that holds anything begins in its first column, and its pieces stand in order.
pub open spec fn flush_left(lines: Seq<Seq<PieceModel>>) -> bool {
    forall|i: int| 0 <= i < lines.len() && (#[trigger] lines[i]).len() > 0 ==> lines[i][0].col == 0
}

spec fn filling_flush(f: Filling) -> bool {
    &&& flush_left(f.lines)
    &&& f.line.len() > 0 ==> f.line[0].col == 0
}

proof fn lemma_chunk_flush(f: Filling, t: Seq<char>, style: Style, spaced: bool, cols: nat)
    requires
        filling_flush(f),
        f.line.len() == 0 ==> f.col == 0,
    ensures
        filling_flush(f.with_chunk(t, style, spaced, cols)),
        f.with_chunk(t, style, spaced, cols).line.len() > 0,
{
    let g = f.with_chunk(t, style, spaced, cols);
    assert forall|i: int| 0 <= i < g.lines.len() && (#[trigger] g.lines[i]).len() > 0 implies g.lines[i][0].col
        == 0 by {
        if i < f.lines.len() {
            assert(g.lines[i] == f.lines[i]);
        }
    }
}

proof fn lemma_chunks_flush(
    f: Filling,
    chunks: Seq<Seq<char>>,
    style: Style,
    spaced: bool,
    cols: nat,
    n: nat,
)
    requires
        filling_flush(f),
        f.line.len() == 0 ==> f.col == 0,
    ensures
        filling_flush(f.with_chunks(chunks, style, spaced, cols, n)),
        ({
            let g = f.with_chunks(chunks, style, spaced, cols, n);
            g.line.len() == 0 ==> g.col == 0
        }),
    decreases n,
{
    if n > 0 && n <= chunks.len() {
        lemma_chunks_flush(f, chunks, style, spaced, cols, (n - 1) as nat);
        let b = f.with_chunks(chunks, style, spaced, cols, (n - 1) as nat);
        lemma_chunk_flush(b, chunks[n - 1], style, spaced && n == 1, cols);
    }
}

proof fn lemma_toks_flush(f: Filling, toks: Seq<TokModel>, cols: nat)
    requires
        filling_flush(f),
        f.line.len() == 0 ==> f.col == 0,
    ensures
        filling_flush(f.with_toks(toks, cols)),
        ({
            let g = f.with_toks(toks, cols);
            g.line.len() == 0 ==> g.col == 0
        }),
    decreases toks.len(),
{
    if toks.len() > 0 {
        lemma_toks_flush(f, toks.drop_last(), cols);
        let b = f.with_toks(toks.drop_last(), cols);
        match toks.last() {
            TokModel::Break => {
                let g = b.broken();
                assert forall|i: int| 0 <= i < g.lines.len() && (#[trigger] g.lines[i]).len() > 0 implies g.lines[i][0].col
                    == 0 by {
                    if i < b.lines.len() {
                        assert(g.lines[i] == b.lines[i]);
                    }
                }
            },
            TokModel::Word { text, style, space_before } => {
                let chunks = chunks_of(text, cols);
                lemma_chunks_flush(b, chunks, style, space_before, cols, chunks.len());
            },
        }
    }
}

/// Every line of wrapped text begins in its first column.
pub proof fn law_wrapped_lines_begin_at_the_edge(inlines: Seq<InlineModel>, cols: nat, base: Style)
    ensures
        flush_left(wrapped(inlines, cols, base)),
{
    let start = Filling { lines: seq![], line: seq![], col: 0 };
    lemma_toks_flush(start, tokens_of(inlines, base).out, cols);
    let f = start.with_toks(tokens_of(inlines, base).out, cols);
    let lines = wrapped(inlines, cols, base);
    assert forall|i: int| 0 <= i < lines.len() && (#[trigger] lines[i]).len() > 0 implies lines[i][0].col
        == 0 by {
        if i < f.lines.len() {
            assert(lines[i] == f.lines[i]);
        }
    }
}

/// A break in the text ends the line: what stands before it and what stands behind it are lines apart.
pub proof fn law_a_break_ends_the_line(f: Filling, cols: nat)
    ensures
        ({
            let g = f.with_tok(TokModel::Break, cols);
            &&& g.lines == f.lines.push(f.line)
            &&& g.line.len() == 0
            &&& g.col == 0
        }),
{
}

/// Whether no two pieces that stand behind each other would fit in one, as far as the first character of
/// the second.
pub open spec fn pieces_full(parts: Seq<Seq<char>>, cols: nat) -> bool {
    forall|i: int| 0 < i < parts.len() ==> #[trigger] full_before(parts, cols, i)
}

/// Whether the piece before piece `i` has no room for its first character.
pub open spec fn full_before(parts: Seq<Seq<char>>, cols: nat, i: int) -> bool {
    parts[i].len() > 0 && chars_cols(parts[i - 1]) + columns::char_cols(parts[i][0]) > cols
}

proof fn lemma_split_full(s: Seq<char>, cols: nat)
    ensures
        ({
            let b = split_state(s, cols);
            &&& b.w == chars_cols(b.cur)
            &&& s.len() > 0 ==> b.cur.len() > 0
            &&& s.len() == 0 ==> b.done.len() == 0
            &&& pieces_full(b.done.push(b.cur), cols)
        }),
    decreases s.len(),
{
    if s.len() > 0 {
        lemma_split_full(s.drop_last(), cols);
        let b = split_state(s.drop_last(), cols);
        let a = split_state(s, cols);
        let c = s.last();
        let was = b.done.push(b.cur);
        let now = a.done.push(a.cur);
        let one = seq![c];
        assert(one.drop_last() =~= seq![]);
        assert(chars_cols(one.drop_last()) == 0);
        assert(chars_cols(one) == columns::char_cols(c));
        let breaks = b.w + columns::char_cols(c) > cols && b.cur.len() > 0;
        if breaks {
            assert(a.done == was && a.cur == one);
        } else {
            assert(a.done == b.done && a.cur == b.cur.push(c));
            assert(a.cur.drop_last() =~= b.cur);
        }
        assert forall|j: int| 0 < j < now.len() implies #[trigger] full_before(now, cols, j) by {
            if j < was.len() {
                assert(full_before(was, cols, j));
                assert(now[j - 1] == was[j - 1]);
                assert(now[j][0] == was[j][0]);
            } else {
                assert(now[j - 1] == b.cur);
                assert(now[j] == one);
            }
        }
    }
}

/// A word that is too long is split no more often than it takes: no piece would have room for the next
/// character.
pub proof fn law_a_word_is_split_no_more_than_it_takes(s: Seq<char>, cols: nat)
    ensures
        pieces_full(chunks_of(s, cols), cols),
{
    lemma_split_full(s, cols);
    let b = split_state(s, cols);
    if columns::columns(s) > cols && b.done.len() == 0 && b.cur.len() > 0 {
        assert(chunks_of(s, cols).len() == 1);
    }
}

} // verus!
