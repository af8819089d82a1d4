//! The text of a page, as it was drawn.

use vstd::prelude::*;

use crate::columns;
use crate::columns::width;
use crate::text;
use crate::text::{chars_of, find_chars, lowered_chars, string_of};

verus! {

/// One line of a page: where it stands, how many rows it takes, how large its type is, what it
/// says.
#[derive(Debug, PartialEq)]
pub struct Line {
    /// The row its box begins in.
    pub y: usize,
    /// Where it begins, in hundredths of a column.
    pub x: usize,
    /// How many rows its box takes.
    pub h: usize,
    /// How wide a column of it is, in hundredths of a column.
    pub advance: usize,
    pub text: String,
}

/// One heading of a page.
#[derive(Debug, PartialEq)]
pub struct Heading {
    pub level: u8,
    pub text: String,
    /// The row it stands in.
    pub y: usize,
}

/// A `Line`, with its text as characters.
#[verifier::ext_equal]
pub struct LineModel {
    pub y: usize,
    pub x: usize,
    pub h: usize,
    pub advance: usize,
    pub text: Seq<char>,
}

/// A `Heading`, with its text as characters.
#[verifier::ext_equal]
pub struct HeadingModel {
    pub level: u8,
    pub text: Seq<char>,
    pub y: usize,
}

impl View for Line {
    type V = LineModel;

    open spec fn view(&self) -> LineModel {
        LineModel { y: self.y, x: self.x, h: self.h, advance: self.advance, text: self.text@ }
    }
}

impl View for Heading {
    type V = HeadingModel;

    open spec fn view(&self) -> HeadingModel {
        HeadingModel { level: self.level, text: self.text@, y: self.y }
    }
}

/// The models of lines.
pub open spec fn line_models(s: Seq<Line>) -> Seq<LineModel> {
    s.map_values(|l: Line| l@)
}

/// The models of headings.
pub open spec fn heading_models(s: Seq<Heading>) -> Seq<HeadingModel> {
    s.map_values(|h: Heading| h@)
}

/// Where the words of a page landed, for a document the viewer can search.
//
// a rasterized page is pixels, so nothing in it can be
// found by looking at it again. this is the same text
// layout already positioned, kept instead of discarded
#[derive(Debug)]
pub struct Index {
    /// One entry per drawn line, top to bottom.
    pub lines: Vec<Line>,
    pub outline: Vec<Heading>,
    /// The page's row height, in pixels of the terminal.
    pub row: u32,
    /// How wide a column of body text is, in 2048ths of a pixel of the terminal.
    pub column: u32,
}

/// Where a search found something: the line, the column of it the match begins in, and how many
/// columns the match takes.
#[derive(Clone, Copy, Debug, PartialEq, Eq, Structural)]
pub struct Hit {
    pub line: usize,
    pub col: usize,
    pub cols: usize,
}

/// Where `needle` first stands in `hay`, ASCII case aside.
//
// ascii case folding only: it is the one mapping that
// cannot change a string's length, and anything else
// would need the match's offset translated back
pub open spec fn place_in(hay: Seq<char>, needle: Seq<char>) -> Option<int> {
    text::first_from(text::lowered(hay), text::lowered(needle), 0)
}

/// Whether a search for `needle` finds something in a line.
pub open spec fn matched(line: LineModel, needle: Seq<char>) -> bool {
    needle.len() > 0 && place_in(line.text, needle) is Some
}

/// The lines that hold `needle`, in order down the page.
pub open spec fn found(lines: Seq<LineModel>, needle: Seq<char>) -> Seq<usize>
    decreases lines.len(),
{
    if lines.len() == 0 {
        seq![]
    } else {
        let before = found(lines.drop_last(), needle);
        if matched(lines.last(), needle) {
            before.push((lines.len() - 1) as usize)
        } else {
            before
        }
    }
}

/// The hit of a search in line `i`.
pub open spec fn hit_in(lines: Seq<LineModel>, needle: Seq<char>, i: usize) -> Hit {
    let line = lines[i as int].text;
    let at = place_in(line, needle)->0;
    Hit {
        line: i,
        col: columns::columns(line.take(at)),
        cols: columns::columns(line.subrange(at, at + needle.len())),
    }
}

/// The hits of a search, in order down the page.
pub open spec fn hits_of(lines: Seq<LineModel>, needle: Seq<char>) -> Seq<Hit> {
    found(lines, needle).map_values(|i: usize| hit_in(lines, needle, i))
}

/// A search finds the lines that hold what is searched for, each once, from the top down.
pub proof fn law_found(lines: Seq<LineModel>, needle: Seq<char>)
    requires
        lines.len() <= usize::MAX,
    ensures
        forall|k: int|
            0 <= k < found(lines, needle).len() ==> {
                let i = #[trigger] found(lines, needle)[k];
                i < lines.len() && matched(lines[i as int], needle)
            },
        forall|i: int|
            0 <= i < lines.len() && matched(#[trigger] lines[i], needle) ==> found(
                lines,
                needle,
            ).contains(i as usize),
        forall|a: int, b: int|
            0 <= a < b < found(lines, needle).len() ==> found(lines, needle)[a] < found(
                lines,
                needle,
            )[b],
    decreases lines.len(),
{
    if lines.len() > 0 {
        let shorter = lines.drop_last();
        law_found(shorter, needle);
        let before = found(shorter, needle);
        let after = found(lines, needle);
        assert forall|k: int| 0 <= k < after.len() implies {
            let i = #[trigger] after[k];
            i < lines.len() && matched(lines[i as int], needle)
        } by {
            if k < before.len() {
                assert(after[k] == before[k]);
                assert(lines[before[k] as int] == shorter[before[k] as int]);
            }
        }
        assert forall|i: int|
            0 <= i < lines.len() && matched(#[trigger] lines[i], needle) implies after.contains(
            i as usize,
        ) by {
            if i < shorter.len() {
                assert(shorter[i] == lines[i]);
                let k = before.index_of(i as usize);
                assert(after[k] == i as usize);
            } else {
                assert(after.last() == i as usize);
            }
        }
        assert forall|a: int, b: int| 0 <= a < b < after.len() implies after[a] < after[b] by {
            assert(after[a] == before[a]);
            if b < before.len() {
                assert(after[b] == before[b]);
            }
        }
    }
}

/// A search for nothing finds nothing.
pub proof fn law_nothing_matches_nothing(lines: Seq<LineModel>)
    ensures
        found(lines, seq![]).len() == 0,
        hits_of(lines, seq![]).len() == 0,
    decreases lines.len(),
{
    if lines.len() > 0 {
        law_nothing_matches_nothing(lines.drop_last());
    }
}

/// A search does not tell ASCII capitals from small letters.
pub proof fn law_search_ignores_case(lines: Seq<LineModel>, a: Seq<char>, b: Seq<char>)
    requires
        text::lowered(a) == text::lowered(b),
    ensures
        found(lines, a) == found(lines, b),
    decreases lines.len(),
{
    assert(a.len() == text::lowered(a).len() == b.len());
    if lines.len() > 0 {
        law_search_ignores_case(lines.drop_last(), a, b);
    }
}

impl Index {
    /// The lines that hold `needle`, in order down the page, ASCII case aside.
    pub fn find(&self, needle: &str) -> (r: Vec<usize>)
        ensures
            r@ == found(line_models(self.lines@), needle@),
    {
        let ghost all = line_models(self.lines@);
        let mut out: Vec<usize> = Vec::new();
        let low = lowered_chars(needle);
        let mut i: usize = 0;
        while i < self.lines.len()
            invariant
                i <= self.lines@.len(),
                all == line_models(self.lines@),
                low@ == text::lowered(needle@),
                out@ == found(all.take(i as int), needle@),
            decreases self.lines.len() - i,
        {
            assert(all.take(i + 1).drop_last() =~= all.take(i as int));
            assert(all.take(i + 1).last() == self.lines@[i as int]@);
            let line = lowered_chars(self.lines[i].text.as_str());
            if low.len() > 0 && find_chars(&line, &low, 0).is_some() {
                out.push(i);
            }
            i += 1;
        }
        assert(all.take(i as int) =~= all);
        out
    }

    /// The hits of a search for `needle`, in order down the page: in each line that holds it, the
    /// first place it stands at.
    pub fn hits(&self, needle: &str) -> (r: Vec<Hit>)
        ensures
            r@ == hits_of(line_models(self.lines@), needle@),
    {
        let ghost all = line_models(self.lines@);
        let lines = self.find(needle);
        let low = lowered_chars(needle);
        let mut out: Vec<Hit> = Vec::new();
        let mut k: usize = 0;
        let n: usize = self.lines.len();
        proof {
            assert(n == all.len());
            law_found(all, needle@);
        }
        while k < lines.len()
            invariant
                k <= lines@.len(),
                all == line_models(self.lines@),
                lines@ == found(all, needle@),
                forall|j: int|
                    0 <= j < lines@.len() ==> {
                        let i = #[trigger] lines@[j];
                        i < all.len() && matched(all[i as int], needle@)
                    },
                low@ == text::lowered(needle@),
                out@ =~= hits_of(all, needle@).take(k as int),
            decreases lines.len() - k,
        {
            let i: usize = lines[k];
            assert(all[i as int] == self.lines@[i as int]@);
            assert(matched(all[i as int], needle@));
            let chars = chars_of(self.lines[i].text.as_str());
            let line = lowered_chars(self.lines[i].text.as_str());
            let total: usize = line.len();
            let at: usize = match find_chars(&line, &low, 0) {
                Some(at) => at,
                None => 0,
            };
            assert(line@.len() == chars@.len());
            assert(low@.len() == needle@.len());
            proof {
                text::lemma_first_from(line@, low@, 0);
                assert(at + low@.len() <= total);
            }
            let before = string_of(&chars, 0, at);
            let held = string_of(&chars, at, at + low.len());
            assert(chars@.subrange(0, at as int) =~= chars@.take(at as int));
            out.push(Hit { line: i, col: width(before.as_str()), cols: width(held.as_str()) });
            k += 1;
        }
        assert(hits_of(all, needle@).take(k as int) =~= hits_of(all, needle@));
        out
    }
}

/// A hit is where what is searched for stands: in its line, as many columns in as what stands before it
/// takes and as many wide as it takes itself. It is the first place in the line that spells it, capitals
/// aside.
pub proof fn law_a_hit_is_where_the_words_are(lines: Seq<LineModel>, needle: Seq<char>, k: int)
    requires
        lines.len() <= usize::MAX,
        0 <= k < hits_of(lines, needle).len(),
    ensures
        ({
            let h = hits_of(lines, needle)[k];
            let line = lines[h.line as int].text;
            &&& h.line < lines.len()
            &&& exists|at: int|
                {
                    &&& 0 <= at && at + needle.len() <= line.len()
                    &&& #[trigger] text::lowered(line.subrange(at, at + needle.len()))
                        == text::lowered(needle)
                    &&& h.col == columns::columns(line.take(at))
                    &&& h.cols == columns::columns(line.subrange(at, at + needle.len()))
                    &&& forall|j: int|
                        0 <= j < at ==> #[trigger] text::lowered(line.subrange(j, j + needle.len()))
                            != text::lowered(needle)
                }
        }),
{
    law_found(lines, needle);
    let i = found(lines, needle)[k];
    let line = lines[i as int].text;
    let (hay, low) = (text::lowered(line), text::lowered(needle));
    text::lemma_first_from(hay, low, 0);
    let at = place_in(line, needle)->0;
    assert(text::lowered(line.subrange(at, at + needle.len())) =~= hay.subrange(at, at + low.len()));
    assert forall|j: int| 0 <= j < at implies #[trigger] text::lowered(
        line.subrange(j, j + needle.len()),
    ) != low by {
        assert(text::lowered(line.subrange(j, j + needle.len())) =~= hay.subrange(j, j + low.len()));
        assert(!text::occurs_at(hay, low, j));
    }
}

/// Every line that spells what is searched for, capitals aside, has a hit, and there are no others; they
/// come from the top down.
pub proof fn law_every_line_that_spells_it_is_hit(
    lines: Seq<LineModel>,
    needle: Seq<char>,
    i: int,
    at: int,
)
    requires
        lines.len() <= usize::MAX,
        needle.len() > 0,
        0 <= i < lines.len(),
        0 <= at,
        at + needle.len() <= lines[i].text.len(),
        text::lowered(lines[i].text.subrange(at, at + needle.len())) == text::lowered(needle),
    ensures
        exists|k: int|
            0 <= k < hits_of(lines, needle).len() && (#[trigger] hits_of(lines, needle)[k]).line == i,
        forall|a: int, b: int|
            0 <= a < b < hits_of(lines, needle).len() ==> (#[trigger] hits_of(lines, needle)[a]).line < (
            #[trigger] hits_of(lines, needle)[b]).line,
{
    law_found(lines, needle);
    let line = lines[i].text;
    let (hay, low) = (text::lowered(line), text::lowered(needle));
    assert(text::lowered(line.subrange(at, at + needle.len())) =~= hay.subrange(at, at + low.len()));
    assert(text::occurs_at(hay, low, at));
    text::lemma_first_from(hay, low, 0);
    assert(matched(lines[i], needle));
    let k = found(lines, needle).index_of(i as usize);
    assert(hits_of(lines, needle)[k].line == i);
}

} // verus!
