//! Colouring for the body of a fenced code block.

use vstd::prelude::*;

use crate::source::markdown::layout::Rgb;
use crate::text;
use crate::text::{chars_of, string_of};

verus! {

/// A run of code that is all one colour.
#[derive(Debug)]
pub struct Span {
    pub text: String,
    pub fill: Rgb,
}

/// A `Span`, with its text as characters.
#[verifier::ext_equal]
pub struct SpanModel {
    pub text: Seq<char>,
    pub fill: Rgb,
}

impl View for Span {
    type V = SpanModel;

    open spec fn view(&self) -> SpanModel {
        SpanModel { text: self.text@, fill: self.fill }
    }
}

/// The models of a line's spans.
pub open spec fn span_models(s: Seq<Span>) -> Seq<SpanModel> {
    s.map_values(|p: Span| p@)
}

/// The models of lines of spans.
pub open spec fn line_span_models(s: Seq<Vec<Span>>) -> Seq<Seq<SpanModel>> {
    s.map_values(|l: Vec<Span>| span_models(l@))
}

/// A set of syntaxes of `syntect`.
#[verifier::external_type_specification]
#[verifier::external_body]
pub struct ExSyntaxSet(syntect::parsing::SyntaxSet);

/// A syntax of `syntect`.
#[verifier::external_type_specification]
#[verifier::external_body]
pub struct ExSyntaxReference(syntect::parsing::SyntaxReference);

/// A set of themes of `syntect`.
#[verifier::external_type_specification]
#[verifier::external_body]
pub struct ExThemeSet(syntect::highlighting::ThemeSet);

/// A highlighter of `syntect`, part of the way through a text.
#[verifier::external_type_specification]
#[verifier::external_body]
pub struct ExHighlightLines<'a>(syntect::easy::HighlightLines<'a>);

/// Whether a set holds the syntaxes that come with `syntect`, for lines that end in newlines.
pub uninterp spec fn holds_defaults(set: syntect::parsing::SyntaxSet) -> bool;

/// Whether a set holds the themes that come with `syntect`.
pub uninterp spec fn holds_default_themes(set: syntect::highlighting::ThemeSet) -> bool;

/// The name of a syntax.
pub uninterp spec fn syntax_name(s: syntect::parsing::SyntaxReference) -> Seq<char>;

/// The names of the syntax a highlighter reads by and of the theme it colours in, and the lines it
/// was given so far.
pub uninterp spec fn progress(h: syntect::easy::HighlightLines<'_>) -> (
    Seq<char>,
    Seq<char>,
    Seq<Seq<char>>,
);

/// The name of the syntax that a token means, by extension or by name, among those that come with
/// `syntect`.
pub uninterp spec fn syntax_for(token: Seq<char>) -> Option<Seq<char>>;

/// The coloured parts of a line that follows the lines `before` it in a text of some syntax, in some
/// theme; nothing where the syntax fails on it.
pub uninterp spec fn coloured(
    syntax: Seq<char>,
    theme: Seq<char>,
    before: Seq<Seq<char>>,
    line: Seq<char>,
) -> Option<Seq<SpanModel>>;

/// `SyntaxSet::load_defaults_newlines`.
#[verifier::external_body]
fn default_syntaxes() -> (r: syntect::parsing::SyntaxSet)
    ensures
        holds_defaults(r),
{
    syntect::parsing::SyntaxSet::load_defaults_newlines()
}

/// `ThemeSet::load_defaults`.
#[verifier::external_body]
fn default_themes() -> (r: syntect::highlighting::ThemeSet)
    ensures
        holds_default_themes(r),
{
    syntect::highlighting::ThemeSet::load_defaults()
}

/// `SyntaxSet::find_syntax_by_token`.
#[verifier::external_body]
fn find_syntax<'a>(set: &'a syntect::parsing::SyntaxSet, token: &str) -> (r: Option<
    &'a syntect::parsing::SyntaxReference,
>)
    requires
        holds_defaults(*set),
    ensures
        r is Some == syntax_for(token@) is Some,
        r matches Some(s) ==> syntax_for(token@) == Some(syntax_name(*s)),
{
    set.find_syntax_by_token(token)
}

/// The name of the theme that code is coloured in.
//
// ocean's background is 2b303b against the page's
// 2a2a2a, so only its foregrounds are used and the block
// keeps the tint layout already draws
pub open spec fn ocean() -> Seq<char> {
    "base16-ocean.dark"@
}

/// `HighlightLines::new`, in the theme `base16-ocean.dark`, which is one of the default themes.
/// Nothing is read yet.
#[verifier::external_body]
fn begin<'a>(
    syntax: &syntect::parsing::SyntaxReference,
    set: &'a syntect::highlighting::ThemeSet,
    theme: &str,
) -> (r: syntect::easy::HighlightLines<'a>)
    requires
        holds_default_themes(*set),
        theme@ == ocean(),
    ensures
        progress(r) == (syntax_name(*syntax), theme@, Seq::<Seq<char>>::empty()),
{
    syntect::easy::HighlightLines::new(syntax, &set.themes[theme])
}

/// `HighlightLines::highlight_line`: the line's parts and their foreground colours, in order. They
/// are a function of the syntax, of the theme and of the lines up to this one.
#[verifier::external_body]
fn highlight_line(
    h: &mut syntect::easy::HighlightLines<'_>,
    line: &str,
    set: &syntect::parsing::SyntaxSet,
) -> (r: Option<Vec<Span>>)
    requires
        holds_defaults(*set),
    ensures
        ({
            let (syntax, theme, before) = progress(*old(h));
            &&& progress(*final(h)) == (syntax, theme, before.push(line@))
            &&& r is Some == coloured(syntax, theme, before, line@) is Some
            &&& r matches Some(parts) ==> coloured(syntax, theme, before, line@) == Some(
                span_models(parts@),
            )
        }),
{
    let ranges = h.highlight_line(line, set).ok()?;
    let parts = ranges.into_iter().map(|(style, text)| {
        let c = style.foreground;
        Span { text: text.to_owned(), fill: Rgb(c.r, c.g, c.b) }
    });
    Some(parts.collect())
}

/// The syntaxes and the themes, which take a while to load.
pub struct Highlighter {
    set: syntect::parsing::SyntaxSet,
    themes: syntect::highlighting::ThemeSet,
}

impl Highlighter {
    /// Whether it holds what comes with `syntect`.
    pub closed spec fn wf(self) -> bool {
        &&& holds_defaults(self.set)
        &&& holds_default_themes(self.themes)
    }

    /// Load what comes with `syntect`.
    pub fn new() -> (r: Self)
        ensures
            r.wf(),
    {
        Highlighter { set: default_syntaxes(), themes: default_themes() }
    }
}

/// `s` without the newlines it ends in.
pub open spec fn without_newlines(s: Seq<char>) -> Seq<char>
    decreases s.len(),
{
    if s.len() > 0 && s.last() == '\n' {
        without_newlines(s.drop_last())
    } else {
        s
    }
}

/// A line's parts without its newline, and without parts that held nothing else.
pub open spec fn kept(parts: Seq<SpanModel>) -> Seq<SpanModel>
    decreases parts.len(),
{
    if parts.len() == 0 {
        seq![]
    } else {
        let before = kept(parts.drop_last());
        let p = parts.last();
        let text = without_newlines(p.text);
        if text.len() > 0 {
            before.push(SpanModel { text, ..p })
        } else {
            before
        }
    }
}

/// Lines with the newlines a syntax ends its lines by.
pub open spec fn ended(lines: Seq<Seq<char>>) -> Seq<Seq<char>> {
    lines.map_values(|l: Seq<char>| l.push('\n'))
}

/// The colours of line `i` of a text in some syntax.
pub open spec fn syntax_line(syntax: Seq<char>, lines: Seq<Seq<char>>, i: int) -> Seq<SpanModel> {
    match coloured(syntax, ocean(), ended(lines.take(i)), lines[i].push('\n')) {
        Some(parts) => kept(parts),
        None => seq![],
    }
}

/// The syntax an info string names.
pub open spec fn syntax_of(lang: Option<Seq<char>>) -> Option<Seq<char>> {
    match lang {
        Some(l) => syntax_for(l),
        None => None,
    }
}

/// The colours of lines of code: by their syntax, or plain where the info string names none.
pub open spec fn code_spans(
    lang: Option<Seq<char>>,
    lines: Seq<Seq<char>>,
    plain: Rgb,
) -> Seq<Seq<SpanModel>> {
    match syntax_of(lang) {
        Some(syntax) => Seq::new(lines.len(), |i: int| syntax_line(syntax, lines, i)),
        None => plain_spans(lines, plain),
    }
}

/// Every line as it is, in one colour.
pub open spec fn plain_spans(lines: Seq<Seq<char>>, plain: Rgb) -> Seq<Seq<SpanModel>> {
    lines.map_values(|l: Seq<char>| seq![SpanModel { text: l, fill: plain }])
}

/// A line's parts without its newline, and without parts that held nothing else.
pub fn keep(parts: Vec<Span>) -> (r: Vec<Span>)
    ensures
        span_models(r@) == kept(span_models(parts@)),
{
    let ghost all = span_models(parts@);
    let mut out: Vec<Span> = Vec::new();
    let mut i: usize = 0;
    while i < parts.len()
        invariant
            i <= parts@.len(),
            all == span_models(parts@),
            span_models(out@) =~= kept(all.take(i as int)),
        decreases parts.len() - i,
    {
        let ghost had = out@;
        assert(all.take(i + 1).drop_last() =~= all.take(i as int));
        assert(all[i as int] == parts@[i as int]@);
        let chars = chars_of(parts[i].text.as_str());
        let mut n: usize = chars.len();
        assert(chars@.take(n as int) =~= chars@);
        while n > 0 && chars[n - 1] == '\n'
            invariant
                n <= chars@.len(),
                without_newlines(chars@) == without_newlines(chars@.take(n as int)),
            decreases n,
        {
            assert(chars@.take(n as int).drop_last() =~= chars@.take(n - 1));
            n -= 1;
        }
        if n > 0 {
            let span = Span { text: string_of(&chars, 0, n), fill: parts[i].fill };
            assert(span.text@ =~= without_newlines(chars@));
            out.push(span);
            assert(span_models(out@) =~= span_models(had).push(span@));
        }
        i += 1;
    }
    assert(all.take(i as int) =~= all);
    out
}

impl Highlighter {
    /// The lines by their syntax, where the info string names one.
    fn by_syntax(&self, lang: &str, lines: &Vec<String>) -> (r: Option<Vec<Vec<Span>>>)
        requires
            self.wf(),
        ensures
            r is Some == syntax_for(lang@) is Some,
            r matches Some(s) ==> line_span_models(s@) == Seq::new(
                lines@.len(),
                |i: int| syntax_line(syntax_for(lang@)->0, text::strings(lines@), i),
            ),
    {
        let syntax = match find_syntax(&self.set, lang) {
            Some(s) => s,
            None => {
                return None;
            },
        };
        let ghost name = syntax_for(lang@)->0;
        let ghost all = text::strings(lines@);
        let mut h = begin(syntax, &self.themes, "base16-ocean.dark");
        let mut out: Vec<Vec<Span>> = Vec::new();
        assert(ended(all.take(0)) =~= seq![]);
        let mut i: usize = 0;
        while i < lines.len()
            invariant
                self.wf(),
                i <= lines@.len(),
                all == text::strings(lines@),
                progress(h) == (name, ocean(), ended(all.take(i as int))),
                line_span_models(out@) =~= Seq::new(i as nat, |k: int| syntax_line(name, all, k)),
            decreases lines.len() - i,
        {
            let ghost had = out@;
            assert(all[i as int] == lines@[i as int]@);
            // a syntax's end-of-line rules do not fire
            // without the newline, so it is added for
            // the highlighter and dropped again after
            let mut line = lines[i].clone();
            line.push('\n');
            let spans = match highlight_line(&mut h, line.as_str(), &self.set) {
                Some(parts) => keep(parts),
                None => Vec::new(),
            };
            assert(ended(all.take(i + 1)) =~= ended(all.take(i as int)).push(line@));
            assert(span_models(spans@) =~= syntax_line(name, all, i as int));
            out.push(spans);
            assert(line_span_models(out@) =~= line_span_models(had).push(span_models(spans@)));
            i += 1;
        }
        Some(out)
    }
}

/// Colour every line of `lines`, falling back to `plain` where the info string names no
/// language there is a syntax for.
pub fn spans(
    h: &Highlighter,
    lang: Option<&str>,
    lines: &Vec<String>,
    plain: Rgb,
) -> (r: Vec<Vec<Span>>)
    requires
        h.wf(),
    ensures
        line_span_models(r@) == code_spans(
            match lang {
                Some(l) => Some(l@),
                None => None,
            },
            text::strings(lines@),
            plain,
        ),
{
    if let Some(l) = lang {
        if let Some(coloured) = h.by_syntax(l, lines) {
            assert(line_span_models(coloured@) =~= code_spans(
                Some(l@),
                text::strings(lines@),
                plain,
            ));
            return coloured;
        }
    }
    let ghost all = text::strings(lines@);
    let mut out: Vec<Vec<Span>> = Vec::new();
    let mut i: usize = 0;
    while i < lines.len()
        invariant
            i <= lines@.len(),
            all == text::strings(lines@),
            line_span_models(out@) =~= plain_spans(all.take(i as int), plain),
        decreases lines.len() - i,
    {
        let ghost had = out@;
        let span = Span { text: lines[i].clone(), fill: plain };
        let mut line: Vec<Span> = Vec::new();
        line.push(span);
        assert(span_models(line@) =~= seq![SpanModel { text: all[i as int], fill: plain }]);
        out.push(line);
        assert(line_span_models(out@) =~= line_span_models(had).push(span_models(line@)));
        i += 1;
    }
    assert(all.take(i as int) =~= all);
    out
}

/// What spans say in which colour, newlines aside.
pub open spec fn span_ink(spans: Seq<SpanModel>) -> Seq<(char, Rgb)>
    decreases spans.len(),
{
    if spans.len() == 0 {
        seq![]
    } else {
        span_ink(spans.drop_last()) + without_any_newline(spans.last().text).map_values(
            |c: char| (c, spans.last().fill),
        )
    }
}

/// The characters of `s` that are no newlines.
pub open spec fn without_any_newline(s: Seq<char>) -> Seq<char>
    decreases s.len(),
{
    if s.len() == 0 {
        seq![]
    } else if s.last() == '\n' {
        without_any_newline(s.drop_last())
    } else {
        without_any_newline(s.drop_last()).push(s.last())
    }
}

proof fn lemma_newlines_off(s: Seq<char>)
    ensures
        without_any_newline(without_newlines(s)) == without_any_newline(s),
    decreases s.len(),
{
    if s.len() > 0 && s.last() == '\n' {
        lemma_newlines_off(s.drop_last());
    }
}

/// To take the newlines off a line's parts loses nothing else of what they say, nor its colours.
pub proof fn law_parts_keep_what_they_say(parts: Seq<SpanModel>)
    ensures
        span_ink(kept(parts)) == span_ink(parts),
        forall|i: int| 0 <= i < kept(parts).len() ==> (#[trigger] kept(parts)[i]).text.len() > 0
            && kept(parts)[i].text.last() != '\n',
    decreases parts.len(),
{
    if parts.len() > 0 {
        law_parts_keep_what_they_say(parts.drop_last());
        let p = parts.last();
        let before = kept(parts.drop_last());
        let text = without_newlines(p.text);
        lemma_newlines_off(p.text);
        lemma_off(p.text);
        if text.len() > 0 {
            let q = SpanModel { text, ..p };
            assert(kept(parts).drop_last() =~= before);
            assert(span_ink(kept(parts)) =~= span_ink(parts));
            assert forall|i: int| 0 <= i < kept(parts).len() implies (#[trigger] kept(parts)[i]).text.len()
                > 0 && kept(parts)[i].text.last() != '\n' by {
                if i < before.len() {
                    assert(kept(parts)[i] == before[i]);
                }
            }
        } else {
            assert(without_any_newline(text) =~= seq![]);
            assert(span_ink(parts) =~= span_ink(parts.drop_last()));
        }
    }
}

proof fn lemma_off(s: Seq<char>)
    ensures
        without_newlines(s).len() > 0 ==> without_newlines(s).last() != '\n',
    decreases s.len(),
{
    if s.len() > 0 && s.last() == '\n' {
        lemma_off(s.drop_last());
    }
}

/// Code without a language that is known is drawn line for line as it was written, in one colour. In a
/// language it is coloured line for line, each by its syntax and the lines above it.
pub proof fn law_code_is_coloured_line_for_line(
    lang: Option<Seq<char>>,
    lines: Seq<Seq<char>>,
    plain: Rgb,
    i: int,
)
    requires
        0 <= i < lines.len(),
    ensures
        code_spans(lang, lines, plain).len() == lines.len(),
        lang is None ==> code_spans(lang, lines, plain)[i] == seq![
            SpanModel { text: lines[i], fill: plain },
        ],
        lang matches Some(l) ==> (syntax_for(l) is None ==> code_spans(lang, lines, plain)[i] == seq![
            SpanModel { text: lines[i], fill: plain },
        ]),
        lang matches Some(l) ==> (syntax_for(l) matches Some(syntax) ==> (coloured(
            syntax,
            "base16-ocean.dark"@,
            Seq::new(i as nat, |j: int| lines[j].push('\n')),
            lines[i].push('\n'),
        ) matches Some(parts) ==> span_ink(code_spans(lang, lines, plain)[i]) == span_ink(parts))),
{
    if let Some(l) = lang {
        if let Some(syntax) = syntax_for(l) {
            let above = Seq::new(i as nat, |j: int| lines[j].push('\n'));
            assert(ended(lines.take(i)) =~= above);
            if let Some(parts) = coloured(syntax, ocean(), above, lines[i].push('\n')) {
                law_parts_keep_what_they_say(parts);
            }
        }
    }
}

} // verus!
