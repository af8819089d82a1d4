//! How much room text asks for.

use vstd::prelude::*;

use crate::columns;
use crate::columns::{cols_of, width};
use crate::source::markdown::parse;
use crate::source::markdown::parse::{Inline, InlineModel, Style, Table, TableModel};
use crate::source::markdown::wrap;
use crate::source::markdown::wrap::{tokens, Filling, PieceModel, Tok, TokModel};
use crate::text;
use crate::text::{chars_of, push_dec};

verus! {

/// Blank characters between one table column and the next.
pub const TABLE_GAP: usize = 2;

/// The plain text of one inline.
pub open spec fn flat_inline(i: InlineModel) -> Seq<char> {
    match i {
        InlineModel::Text { text, style } => text,
        InlineModel::Image { alt } => alt,
        InlineModel::Note { number } => "["@ + text::dec(number) + "]"@,
        InlineModel::Break => seq![' '],
    }
}

/// The plain text of some inlines.
pub open spec fn flattened(inlines: Seq<InlineModel>) -> Seq<char>
    decreases inlines.len(),
{
    if inlines.len() == 0 {
        seq![]
    } else {
        flattened(inlines.drop_last()) + flat_inline(inlines.last())
    }
}

/// The plain text of some inlines, for the outline.
pub fn flatten(inlines: &Vec<Inline>) -> (r: String)
    ensures
        r@ == flattened(parse::inline_models(inlines@)),
{
    let mut out = String::new();
    let ghost all = parse::inline_models(inlines@);
    let mut i: usize = 0;
    while i < inlines.len()
        invariant
            i <= inlines@.len(),
            all == parse::inline_models(inlines@),
            out@ == flattened(all.take(i as int)),
        decreases inlines.len() - i,
    {
        let ghost had = out@;
        assert(all.take(i + 1).drop_last() =~= all.take(i as int));
        assert(all[i as int] == inlines@[i as int]@);
        match &inlines[i] {
            Inline::Text { text, .. } => {
                out.push_str(text.as_str());
            },
            Inline::Image { alt } => {
                out.push_str(alt.as_str());
            },
            Inline::Note { number } => {
                out.push_str("[");
                push_dec(&mut out, *number as u64);
                out.push_str("]");
                assert(out@ =~= had + ("["@ + text::dec(*number as nat) + "]"@));
            },
            Inline::Break => {
                out.push(' ');
                assert(out@ =~= had + seq![' ']);
            },
        }
        i += 1;
    }
    assert(all.take(i as int) =~= all);
    out
}

/// A text with its tabs expanded, and the column its end stands in.
#[verifier::ext_equal]
pub struct Expanded {
    pub out: Seq<char>,
    pub col: nat,
}

/// Tabs expanded to the next multiple of four.
pub open spec fn expanded(s: Seq<char>) -> Expanded
    decreases s.len(),
{
    if s.len() == 0 {
        Expanded { out: seq![], col: 0 }
    } else {
        let b = expanded(s.drop_last());
        if s.last() == '\t' {
            let n = (4 - b.col % 4) as nat;
            Expanded { out: b.out + Seq::new(n, |i: int| ' '), col: b.col + n }
        } else {
            Expanded { out: b.out.push(s.last()), col: b.col + columns::char_cols(s.last()) }
        }
    }
}

/// Tabs expanded to the next multiple of four.
pub fn expand_tabs(s: &str) -> (r: String)
    ensures
        r@ == expanded(s@).out,
        forall|i: int|
            0 <= i < s@.len() && 0x20 <= #[trigger] s@[i] as u32 <= 0x7e ==> columns::char_cols(s@[i])
                == 1,
{
    let chars = chars_of(s);
    let mut out = String::new();
    // the column, up to whole stops
    let mut col: usize = 0;
    let mut i: usize = 0;
    while i < chars.len()
        invariant
            chars@ == s@,
            i <= chars@.len(),
            out@ == expanded(s@.take(i as int)).out,
            col == expanded(s@.take(i as int)).col % 4,
            forall|j: int|
                0 <= j < i && 0x20 <= #[trigger] s@[j] as u32 <= 0x7e ==> columns::char_cols(s@[j])
                    == 1,
        decreases chars.len() - i,
    {
        let ghost had = out@;
        assert(s@.take(i + 1).drop_last() =~= s@.take(i as int));
        let c = chars[i];
        if c == '\t' {
            let n: usize = 4 - col;
            let mut k: usize = 0;
            while k < n
                invariant
                    k <= n,
                    out@ =~= had + Seq::new(k as nat, |i: int| ' '),
                decreases n - k,
            {
                out.push(' ');
                k += 1;
            }
            col = 0;
        } else {
            out.push(c);
            col = (col + cols_of(c)) % 4;
        }
        i += 1;
    }
    assert(s@.take(i as int) =~= s@);
    out
}

/// The columns one token takes; `first` until a word has been seen.
pub open spec fn tok_cols(t: TokModel, first: bool) -> nat {
    match t {
        TokModel::Word { text, style, space_before } => columns::columns(text) as nat + if space_before
            && !first {
            1nat
        } else {
            0nat
        },
        TokModel::Break => 1,
    }
}

/// Whether a word is among the tokens.
pub open spec fn has_word(toks: Seq<TokModel>) -> bool
    decreases toks.len(),
{
    toks.len() > 0 && (toks.last() is Word || has_word(toks.drop_last()))
}

/// The columns tokens take on one line.
pub open spec fn toks_cols(toks: Seq<TokModel>) -> nat
    decreases toks.len(),
{
    if toks.len() == 0 {
        0
    } else {
        toks_cols(toks.drop_last()) + tok_cols(toks.last(), !has_word(toks.drop_last()))
    }
}

/// `n`, as far as it can be counted.
pub open spec fn counted(n: nat) -> nat {
    if n > usize::MAX {
        usize::MAX as nat
    } else {
        n
    }
}

/// The width a cell would take if it were never wrapped, as far as it can be counted.
pub open spec fn natural(cell: Seq<InlineModel>) -> nat {
    counted(toks_cols(wrap::tokens_of(cell, plain_style()).out))
}

/// Text without any style.
pub open spec fn plain_style() -> Style {
    Style { bold: false, italic: false, code: false, strike: false, link: false }
}

/// The width a cell would take if it were never wrapped.
pub fn natural_width(cell: &Vec<Inline>) -> (r: usize)
    ensures
        r == natural(parse::inline_models(cell@)),
        ({
            let toks = wrap::tokens_of(parse::inline_models(cell@), plain_style()).out;
            wrap::plain_words(toks) ==> r == counted(wrap::plain_cols(toks))
        }),
{
    let base = Style { bold: false, italic: false, code: false, strike: false, link: false };
    let toks = tokens(cell, base);
    let ghost all = wrap::tok_models(toks@);
    let mut w: usize = 0;
    let mut first = true;
    let mut i: usize = 0;
    while i < toks.len()
        invariant
            i <= toks@.len(),
            all == wrap::tok_models(toks@),
            w == counted(toks_cols(all.take(i as int))),
            first == !has_word(all.take(i as int)),
            wrap::plain_words(all) ==> first == (i == 0) && w == counted(
                wrap::plain_cols(all.take(i as int)),
            ),
        decreases toks.len() - i,
    {
        assert(all.take(i + 1).drop_last() =~= all.take(i as int));
        assert(all[i as int] == toks@[i as int]@);
        match &toks[i] {
            Tok::Word { text, space_before, .. } => {
                w = w.saturating_add(width(text.as_str()));
                if *space_before && !first {
                    w = w.saturating_add(1);
                }
                first = false;
            },
            Tok::Break => {
                w = w.saturating_add(1);
            },
        }
        i += 1;
    }
    assert(all.take(i as int) =~= all);
    w
}

/// The greater of two.
pub open spec fn greater(a: nat, b: nat) -> nat {
    if a > b {
        a
    } else {
        b
    }
}

/// What column `i` asks for in the first `k` rows, and one at least.
pub open spec fn asked(rows: Seq<Seq<Seq<InlineModel>>>, i: int, k: int) -> nat
    decreases k,
{
    if k <= 0 {
        1
    } else {
        let before = asked(rows, i, k - 1);
        if i < rows[k - 1].len() {
            greater(before, natural(rows[k - 1][i]))
        } else {
            before
        }
    }
}

/// A table's rows, its head first.
pub open spec fn all_rows(t: TableModel) -> Seq<Seq<Seq<InlineModel>>> {
    seq![t.head] + t.rows
}

/// What each of `n` columns asks for.
pub open spec fn natural_widths(t: TableModel, n: nat) -> Seq<nat> {
    Seq::new(n, |i: int| asked(all_rows(t), i, all_rows(t).len() as int))
}

/// The sum of some widths.
pub open spec fn sum(widths: Seq<nat>) -> nat
    decreases widths.len(),
{
    if widths.len() == 0 {
        0
    } else {
        sum(widths.drop_last()) + widths.last()
    }
}

/// The last of the widest columns.
pub open spec fn widest(widths: Seq<nat>) -> int
    decreases widths.len(),
{
    if widths.len() <= 1 {
        0
    } else {
        let before = widest(widths.drop_last());
        if widths.last() >= widths[before] {
            widths.len() - 1
        } else {
            before
        }
    }
}

pub proof fn lemma_widest(widths: Seq<nat>)
    requires
        widths.len() > 0,
    ensures
        0 <= widest(widths) < widths.len(),
        forall|i: int| 0 <= i < widths.len() ==> #[trigger] widths[i] <= widths[widest(widths)],
    decreases widths.len(),
{
    if widths.len() > 1 {
        let shorter = widths.drop_last();
        lemma_widest(shorter);
        assert forall|i: int| 0 <= i < widths.len() implies #[trigger] widths[i] <= widths[widest(
            widths,
        )] by {
            if i < shorter.len() {
                assert(shorter[i] == widths[i]);
            }
        }
    }
}

pub proof fn lemma_sum_update(widths: Seq<nat>, i: int, w: nat)
    requires
        0 <= i < widths.len(),
    ensures
        sum(widths.update(i, w)) == sum(widths) - widths[i] + w,
        widths[i] <= sum(widths),
    decreases widths.len(),
{
    let after = widths.update(i, w);
    if i == widths.len() - 1 {
        assert(after.drop_last() =~= widths.drop_last());
    } else {
        lemma_sum_update(widths.drop_last(), i, w);
        assert(after.drop_last() =~= widths.drop_last().update(i, w));
    }
}

/// The widest column shrunk by one, over and over, until the columns come to `avail` or none can
/// shrink.
pub open spec fn shrunk(widths: Seq<nat>, avail: nat) -> Seq<nat>
    decreases sum(widths),
{
    if widths.len() == 0 || sum(widths) <= avail || widths[widest(widths)] <= 1 {
        widths
    } else {
        let at = widest(widths);
        proof {
            lemma_widest(widths);
            lemma_sum_update(widths, at, (widths[at] - 1) as nat);
        }
        shrunk(widths.update(at, (widths[at] - 1) as nat), avail)
    }
}

/// The room `n` columns share: what the gaps between them leave of `total`, and one each at least.
pub open spec fn available(n: nat, total: nat) -> nat {
    let left = total - TABLE_GAP * (n - 1);
    if left < n {
        n
    } else {
        left as nat
    }
}

/// The widths of a table's columns.
pub open spec fn table_widths(t: TableModel, n: nat, total: nat) -> Seq<nat> {
    shrunk(natural_widths(t, n), available(n, total))
}

/// Widths as numbers.
pub open spec fn nats(s: Seq<usize>) -> Seq<nat> {
    s.map_values(|w: usize| w as nat)
}

/// A row's cells make their columns as wide as they ask for.
fn widen(widths: &mut Vec<usize>, row: &Vec<Vec<Inline>>, n: usize)
    requires
        old(widths)@.len() == n,
    ensures
        final(widths)@.len() == n,
        forall|i: int|
            0 <= i < n ==> #[trigger] final(widths)@[i] == if i < row@.len() {
                greater(old(widths)@[i] as nat, natural(parse::cell_models(row@)[i]))
            } else {
                old(widths)@[i] as nat
            },
{
    let mut i: usize = 0;
    while i < n && i < row.len()
        invariant
            i <= n,
            i <= row@.len(),
            widths@.len() == n,
            forall|j: int|
                0 <= j < i ==> #[trigger] widths@[j] == greater(
                    old(widths)@[j] as nat,
                    natural(parse::cell_models(row@)[j]),
                ),
            forall|j: int| i <= j < n ==> #[trigger] widths@[j] == old(widths)@[j],
        decreases n - i,
    {
        let w: usize = natural_width(&row[i]);
        if w > widths[i] {
            widths.set(i, w);
        }
        i += 1;
    }
}

/// The sum of some widths, which may be more than one of them could be.
fn total_of(widths: &Vec<usize>) -> (r: u128)
    ensures
        r == sum(nats(widths@)),
{
    let n: usize = widths.len();
    let mut t: u128 = 0;
    let mut i: usize = 0;
    while i < n
        invariant
            n == widths@.len(),
            i <= n,
            t == sum(nats(widths@).take(i as int)),
            t <= i * 0xffff_ffff_ffff_ffff,
        decreases n - i,
    {
        let ghost all = nats(widths@);
        assert(all.take(i + 1).drop_last() =~= all.take(i as int));
        assert(all[i as int] == widths@[i as int]);
        assert((i + 1) * 0xffff_ffff_ffff_ffff == i * 0xffff_ffff_ffff_ffff + 0xffff_ffff_ffff_ffff);
        t = t + widths[i] as u128;
        i += 1;
    }
    assert(nats(widths@).take(n as int) =~= nats(widths@));
    t
}

/// The last of the widest columns.
fn widest_of(widths: &Vec<usize>) -> (r: usize)
    requires
        widths@.len() > 0,
    ensures
        r == widest(nats(widths@)),
        r < widths@.len(),
{
    let ghost all = nats(widths@);
    let mut at: usize = 0;
    let mut i: usize = 1;
    assert(widest(all.take(1)) == 0);
    while i < widths.len()
        invariant
            1 <= i <= widths@.len(),
            at < i,
            all == nats(widths@),
            at == widest(all.take(i as int)),
        decreases widths.len() - i,
    {
        assert(all.take(i + 1).drop_last() =~= all.take(i as int));
        assert(all.take(i as int)[at as int] == widths@[at as int]);
        if widths[i] >= widths[at] {
            at = i;
        }
        i += 1;
    }
    assert(all.take(i as int) =~= all);
    at
}

/// Column widths in characters: each column's natural width, then the widest shrunk one at a time
/// until the row fits `total`.
pub fn column_widths(t: &Table, n: usize, total: usize) -> (r: Vec<usize>)
    requires
        n > 0,
    ensures
        nats(r@) == table_widths(t@, n as nat, total as nat),
{
    let ghost rows = all_rows(t@);
    let mut widths: Vec<usize> = Vec::new();
    widths.resize(n, 1);
    widen(&mut widths, &t.head, n);
    assert forall|i: int| 0 <= i < n implies #[trigger] widths@[i] == asked(rows, i, 1) by {
        assert(asked(rows, i, 0) == 1);
        assert(rows[0] == parse::cell_models(t.head@));
    }
    let mut k: usize = 0;
    while k < t.rows.len()
        invariant
            k <= t.rows@.len(),
            rows == all_rows(t@),
            widths@.len() == n,
            forall|i: int| 0 <= i < n ==> #[trigger] widths@[i] == asked(rows, i, k + 1),
        decreases t.rows.len() - k,
    {
        let ghost before = widths@;
        widen(&mut widths, &t.rows[k], n);
        assert forall|i: int| 0 <= i < n implies #[trigger] widths@[i] == asked(rows, i, k + 2) by {
            assert(rows[k + 1] == parse::cell_models(t.rows@[k as int]@));
            assert(before[i] == asked(rows, i, k + 1));
        }
        k += 1;
    }
    assert(nats(widths@) =~= natural_widths(t@, n as nat));

    // shrink the widest, so a column of prose wraps before a
    // column of short keys is squeezed to nothing
    let gaps: u128 = TABLE_GAP as u128 * (n as u128 - 1);
    let left: u128 = if total as u128 > gaps {
        total as u128 - gaps
    } else {
        0
    };
    let avail: u128 = if left < n as u128 {
        n as u128
    } else {
        left
    };
    assert(avail == available(n as nat, total as nat));
    let ghost goal = table_widths(t@, n as nat, total as nat);
    loop
        invariant_except_break
            widths@.len() == n > 0,
            shrunk(nats(widths@), avail as nat) == goal,
        ensures
            nats(widths@) == goal,
        decreases sum(nats(widths@)),
    {
        if total_of(&widths) <= avail {
            break;
        }
        let at: usize = widest_of(&widths);
        assert(nats(widths@)[at as int] == widths@[at as int]);
        if widths[at] <= 1 {
            break;
        }
        let ghost before = nats(widths@);
        proof {
            lemma_sum_update(before, at as int, (before[at as int] - 1) as nat);
        }
        let w: usize = widths[at] - 1;
        widths.set(at, w);
        assert(nats(widths@) =~= before.update(at as int, w as nat));
    }
    widths
}

proof fn lemma_all_ones(widths: Seq<nat>)
    requires
        forall|i: int| 0 <= i < widths.len() ==> #[trigger] widths[i] <= 1,
    ensures
        sum(widths) <= widths.len(),
    decreases widths.len(),
{
    if widths.len() > 0 {
        assert(widths.last() <= 1);
        assert forall|i: int| 0 <= i < widths.len() - 1 implies #[trigger] widths.drop_last()[i]
            <= 1 by {
            assert(widths[i] <= 1);
        }
        lemma_all_ones(widths.drop_last());
    }
}

/// Shrinking fits the columns into the room there is: it never widens one, leaves each at least
/// one character, and a table that fits stays as it is.
pub proof fn law_shrunk_fits(widths: Seq<nat>, avail: nat)
    requires
        widths.len() > 0,
        avail >= widths.len(),
        forall|i: int| 0 <= i < widths.len() ==> #[trigger] widths[i] >= 1,
    ensures
        shrunk(widths, avail).len() == widths.len(),
        sum(shrunk(widths, avail)) <= avail,
        forall|i: int|
            0 <= i < widths.len() ==> 1 <= #[trigger] shrunk(widths, avail)[i] <= widths[i],
        sum(widths) <= avail ==> shrunk(widths, avail) == widths,
    decreases sum(widths),
{
    lemma_widest(widths);
    let at = widest(widths);
    if sum(widths) > avail {
        if widths[at] <= 1 {
            assert forall|i: int| 0 <= i < widths.len() implies #[trigger] widths[i] <= 1 by {}
            lemma_all_ones(widths);
        } else {
            let next = widths.update(at, (widths[at] - 1) as nat);
            lemma_sum_update(widths, at, (widths[at] - 1) as nat);
            law_shrunk_fits(next, avail);
            assert forall|i: int| 0 <= i < widths.len() implies 1 <= #[trigger] shrunk(
                widths,
                avail,
            )[i] <= widths[i] by {
                assert(1 <= shrunk(next, avail)[i] <= next[i]);
            }
        }
    }
}

proof fn lemma_asked(rows: Seq<Seq<Seq<InlineModel>>>, i: int, k: int)
    ensures
        asked(rows, i, k) >= 1,
    decreases k,
{
    if k > 0 {
        lemma_asked(rows, i, k - 1);
    }
}

/// A table's columns and the gaps between them fit its lines, unless there are more columns than
/// that leaves characters for; each column has a character at least and no more than it asks for.
pub proof fn law_table_fits(t: TableModel, n: nat, total: nat)
    requires
        n > 0,
    ensures
        table_widths(t, n, total).len() == n,
        total >= n + TABLE_GAP * (n - 1) ==> sum(table_widths(t, n, total)) + TABLE_GAP * (n - 1)
            <= total,
        forall|i: int|
            0 <= i < n ==> 1 <= #[trigger] table_widths(t, n, total)[i] <= natural_widths(t, n)[i],
        sum(natural_widths(t, n)) + TABLE_GAP * (n - 1) <= total ==> table_widths(t, n, total)
            == natural_widths(t, n),
{
    let widths = natural_widths(t, n);
    assert forall|i: int| 0 <= i < widths.len() implies #[trigger] widths[i] >= 1 by {
        lemma_asked(all_rows(t), i, all_rows(t).len() as int);
    }
    law_shrunk_fits(widths, available(n, total));
}

/// Expanding tabs leaves none, and each goes to a stop: what follows a tab stands in a column that
/// is a multiple of four. To expand again changes nothing.
pub proof fn law_tabs_expand(s: Seq<char>)
    ensures
        !expanded(s).out.contains('\t'),
        s.len() > 0 && s.last() == '\t' ==> expanded(s).col % 4 == 0,
        !s.contains('\t') ==> expanded(s).out == s,
        expanded(expanded(s).out).out == expanded(s).out,
{
    lemma_tabs_expand(s);
    lemma_tabs_expand(expanded(s).out);
}

proof fn lemma_tabs_expand(s: Seq<char>)
    ensures
        !expanded(s).out.contains('\t'),
        s.len() > 0 && s.last() == '\t' ==> expanded(s).col % 4 == 0,
        !s.contains('\t') ==> expanded(s).out == s,
    decreases s.len(),
{
    if s.len() > 0 {
        lemma_tabs_expand(s.drop_last());
        let before = expanded(s.drop_last());
        let after = expanded(s);
        assert forall|i: int| 0 <= i < after.out.len() implies after.out[i] != '\t' by {
            if i < before.out.len() {
                assert(after.out[i] == before.out[i]);
                assert(before.out.contains(before.out[i]));
            }
        }
        if !s.contains('\t') {
            assert(s.contains(s.last()));
            assert forall|i: int| 0 <= i < s.drop_last().len() implies s.drop_last()[i] != '\t' by {
                assert(s.contains(s[i]));
            }
            assert(after.out =~= s);
        }
    }
}

/// Whether the tokens are words, with no break among them.
pub open spec fn all_words(toks: Seq<TokModel>) -> bool {
    forall|i: int| 0 <= i < toks.len() ==> (#[trigger] toks[i]) is Word
}

/// Whether `t` is spelled with those letters.
pub open spec fn spelled(t: Seq<char>, letters: Set<char>) -> bool {
    forall|i: int| 0 <= i < t.len() ==> letters.contains(#[trigger] t[i])
}

/// Whether every word is spelled with those letters.
pub open spec fn words_spelled(toks: Seq<TokModel>, letters: Set<char>) -> bool {
    forall|i: int|
        0 <= i < toks.len() ==> ((#[trigger] toks[i]) matches TokModel::Word { text, .. } ==> spelled(
            text,
            letters,
        ))
}

/// Whether text of those letters, among them the space, is as wide as they are one by one, and none
/// of them is without width or wider than `cols`.
pub open spec fn regular(letters: Set<char>, cols: nat) -> bool {
    &&& letters.contains(' ') && columns::char_cols(' ') == 1
    &&& forall|c: char| #[trigger]
        letters.contains(c) ==> 1 <= columns::char_cols(c) <= cols
    &&& forall|t: Seq<char>|
        spelled(t, letters) ==> #[trigger] columns::columns(t) == wrap::chars_cols(t)
}

/// Whether two runs of tokens differ in their styles alone.
pub open spec fn alike(a: Seq<TokModel>, b: Seq<TokModel>) -> bool {
    &&& a.len() == b.len()
    &&& forall|i: int|
        0 <= i < a.len() ==> match (#[trigger] a[i], b[i]) {
            (
                TokModel::Word { text: x, space_before: p, .. },
                TokModel::Word { text: y, space_before: q, .. },
            ) => x == y && p == q,
            (TokModel::Break, TokModel::Break) => true,
            _ => false,
        }
}

proof fn lemma_tokens_alike(inlines: Seq<InlineModel>, a: Style, b: Style)
    ensures
        alike(wrap::tokens_of(inlines, a).out, wrap::tokens_of(inlines, b).out),
        wrap::tokens_of(inlines, a).gap == wrap::tokens_of(inlines, b).gap,
    decreases inlines.len(),
{
    if inlines.len() > 0 {
        lemma_tokens_alike(inlines.drop_last(), a, b);
    }
}

proof fn lemma_alike_cols(a: Seq<TokModel>, b: Seq<TokModel>)
    requires
        alike(a, b),
    ensures
        toks_cols(a) == toks_cols(b),
        has_word(a) == has_word(b),
    decreases a.len(),
{
    if a.len() > 0 {
        assert(alike(a.drop_last(), b.drop_last())) by {
            assert forall|i: int| 0 <= i < a.len() - 1 implies match (
                #[trigger] a.drop_last()[i],
                b.drop_last()[i],
            ) {
                (
                    TokModel::Word { text: x, space_before: p, .. },
                    TokModel::Word { text: y, space_before: q, .. },
                ) => x == y && p == q,
                (TokModel::Break, TokModel::Break) => true,
                _ => false,
            } by {
                assert(a.drop_last()[i] == a[i]);
            }
        }
        lemma_alike_cols(a.drop_last(), b.drop_last());
        assert(a[a.len() - 1] == a.last());
    }
}

/// Words that fit one line are put on one.
proof fn lemma_one_line(toks: Seq<TokModel>, cols: nat)
    requires
        all_words(toks),
        toks_cols(toks) <= cols,
    ensures
        ({
            let f = Filling { lines: seq![], line: seq![], col: 0 }.with_toks(toks, cols);
            &&& f.lines.len() == 0
            &&& f.col <= toks_cols(toks)
            &&& toks.len() > 0 ==> f.line.len() > 0
        }),
    decreases toks.len(),
{
    if toks.len() > 0 {
        let front = toks.drop_last();
        assert(all_words(front)) by {
            assert forall|i: int| 0 <= i < front.len() implies (#[trigger] front[i]) is Word by {
                assert(front[i] == toks[i]);
            }
        }
        lemma_one_line(front, cols);
        assert(toks[toks.len() - 1] is Word);
        if front.len() > 0 {
            assert(front[front.len() - 1] is Word);
        }
        let f = Filling { lines: seq![], line: seq![], col: 0 }.with_toks(front, cols);
        if let TokModel::Word { text, style, space_before } = toks.last() {
            assert(wrap::chunks_of(text, cols) == seq![text]);
            reveal_with_fuel(Filling::with_chunks, 2);
            assert(f.with_tok(toks.last(), cols) == f.with_chunk(text, style, space_before, cols));
        }
    }
}

proof fn lemma_chars_join(a: Seq<char>, b: Seq<char>)
    ensures
        wrap::chars_cols(a + b) == wrap::chars_cols(a) + wrap::chars_cols(b),
    decreases b.len(),
{
    if b.len() == 0 {
        assert(a + b =~= a);
    } else {
        assert((a + b).drop_last() =~= a + b.drop_last());
        lemma_chars_join(a, b.drop_last());
    }
}

proof fn lemma_some_columns(t: Seq<char>, letters: Set<char>, cols: nat)
    requires
        regular(letters, cols),
        spelled(t, letters),
        t.len() > 0,
    ensures
        columns::columns(t) == wrap::chars_cols(t),
        wrap::chars_cols(t) >= 1,
{
    assert(letters.contains(t[t.len() - 1]));
}

proof fn lemma_spelled_joins(a: Seq<char>, b: Seq<char>, letters: Set<char>)
    requires
        spelled(a, letters),
        spelled(b, letters),
    ensures
        spelled(a + b, letters),
{
    assert forall|i: int| 0 <= i < (a + b).len() implies letters.contains(
        #[trigger] (a + b)[i],
    ) by {
        if i < a.len() {
            assert((a + b)[i] == a[i]);
        } else {
            assert((a + b)[i] == b[i - a.len()]);
        }
    }
}

/// A word that is split holds more than a line in its first two pieces.
proof fn lemma_split_breaks(s: Seq<char>, cols: nat, letters: Set<char>)
    requires
        spelled(s, letters),
    ensures
        ({
            let b = wrap::split_state(s, cols);
            &&& s.len() > 0 ==> b.cur.len() > 0
            &&& b.w == wrap::chars_cols(b.cur)
            &&& spelled(b.cur, letters)
            &&& forall|i: int|
                0 <= i < b.done.len() ==> spelled(#[trigger] b.done[i], letters) && b.done[i].len()
                    > 0
            &&& b.done.len() == 0 ==> b.cur == s
            &&& b.done.len() > 0 ==> wrap::chars_cols(b.done[0]) + wrap::chars_cols(
                if b.done.len() > 1 {
                    b.done[1]
                } else {
                    b.cur
                },
            ) > cols
        }),
    decreases s.len(),
{
    if s.len() > 0 {
        let front = s.drop_last();
        let c = s.last();
        assert(letters.contains(s[s.len() - 1]));
        assert(spelled(front, letters)) by {
            assert forall|i: int| 0 <= i < front.len() implies letters.contains(
                #[trigger] front[i],
            ) by {
                assert(front[i] == s[i]);
            }
        }
        lemma_split_breaks(front, cols, letters);
        let b = wrap::split_state(front, cols);
        let a = wrap::split_state(s, cols);
        let one = seq![c];
        assert(one.drop_last() =~= seq![]);
        assert(wrap::chars_cols(one.drop_last()) == 0);
        assert(wrap::chars_cols(one) == columns::char_cols(c));
        if b.w + columns::char_cols(c) > cols && b.cur.len() > 0 {
            assert(a.done == b.done.push(b.cur) && a.cur == one);
            assert forall|i: int| 0 <= i < a.done.len() implies spelled(
                #[trigger] a.done[i],
                letters,
            ) && a.done[i].len() > 0 by {
                if i < b.done.len() {
                    assert(a.done[i] == b.done[i]);
                }
            }
        } else {
            assert(a.cur.drop_last() =~= b.cur);
            assert(a.cur =~= b.cur + one);
            lemma_spelled_joins(b.cur, one, letters);
            if b.done.len() == 0 {
                assert(a.cur =~= s);
            }
        }
    }
}

/// The pieces of a word are spelled with its letters, and where the word is wider than a line the first
/// two are together.
proof fn lemma_chunks_break(s: Seq<char>, cols: nat, letters: Set<char>)
    requires
        regular(letters, cols),
        spelled(s, letters),
        s.len() > 0,
        columns::columns(s) > cols,
    ensures
        ({
            let chunks = wrap::chunks_of(s, cols);
            &&& chunks.len() >= 2
            &&& forall|i: int|
                0 <= i < chunks.len() ==> spelled(#[trigger] chunks[i], letters) && chunks[i].len()
                    > 0
            &&& columns::columns(chunks[0]) + columns::columns(chunks[1]) > cols
        }),
{
    lemma_split_breaks(s, cols, letters);
    lemma_some_columns(s, letters, cols);
    let b = wrap::split_state(s, cols);
    if b.done.len() == 0 {
        // one piece is no wider than a line, or a single letter
        lemma_unsplit(s, cols);
        assert(letters.contains(s[0]));
        assert(s.len() == 1 ==> s.drop_last() =~= seq![]);
        assert(s.len() == 1 ==> wrap::chars_cols(s.drop_last()) == 0);
    }
    let chunks = wrap::chunks_of(s, cols);
    assert(chunks == b.done.push(b.cur));
    assert forall|i: int| 0 <= i < chunks.len() implies spelled(#[trigger] chunks[i], letters)
        && chunks[i].len() > 0 by {
        if i < b.done.len() {
            assert(chunks[i] == b.done[i]);
        }
    }
    lemma_some_columns(chunks[0], letters, cols);
    lemma_some_columns(chunks[1], letters, cols);
}

proof fn lemma_unsplit(s: Seq<char>, cols: nat)
    ensures
        wrap::split_state(s, cols).done.len() == 0 ==> s.len() <= 1 || wrap::chars_cols(s) <= cols,
    decreases s.len(),
{
    if s.len() > 0 {
        lemma_unsplit(s.drop_last(), cols);
        lemma_unsplit_all(s.drop_last(), cols);
    }
}

proof fn lemma_unsplit_all(s: Seq<char>, cols: nat)
    ensures
        wrap::split_state(s, cols).done.len() == 0 ==> wrap::split_state(s, cols).cur == s
            && wrap::split_state(s, cols).w == wrap::chars_cols(s),
    decreases s.len(),
{
    if s.len() > 0 {
        lemma_unsplit_all(s.drop_last(), cols);
        if wrap::split_state(s, cols).done.len() == 0 {
            assert(s.drop_last().push(s.last()) =~= s);
        }
    }
}

/// Where the last piece of a line ends.
pub open spec fn line_end(line: Seq<PieceModel>) -> nat {
    line.last().col + columns::columns(line.last().text) as nat
}

/// A line being filled, and what it says of where it ends.
spec fn ends_right(f: Filling, letters: Set<char>) -> bool {
    f.line.len() > 0 ==> f.col > 0 && spelled(f.line.last().text, letters) && line_end(f.line)
        == f.col
}

proof fn lemma_placed_ends(
    f: Filling,
    t: Seq<char>,
    style: Style,
    spaced: bool,
    cols: nat,
    letters: Set<char>,
)
    requires
        regular(letters, cols),
        spelled(t, letters),
        t.len() > 0,
        ends_right(f, letters),
        f.line.len() == 0 ==> f.col == 0,
    ensures
        ({
            let g = f.with_chunk(t, style, spaced, cols);
            &&& ends_right(g, letters)
            &&& g.line.len() > 0
            &&& g.lines.len() >= f.lines.len()
            &&& g.col >= columns::columns(t)
        }),
{
    let gap: nat = if spaced {
        1
    } else {
        0
    };
    let w = columns::columns(t) as nat;
    lemma_some_columns(t, letters, cols);
    if f.col > 0 && f.col + gap + w <= cols {
        let p = f.line.last();
        let sep = if spaced {
            " "@
        } else {
            seq![]
        };
        reveal_strlit(" ");
        assert(spelled(sep, letters));
        assert(" "@.drop_last() =~= seq![]);
        assert(wrap::chars_cols(" "@.drop_last()) == 0);
        assert(wrap::chars_cols(sep) == gap);
        lemma_spelled_joins(p.text, sep, letters);
        lemma_spelled_joins(p.text + sep, t, letters);
        lemma_chars_join(p.text, sep);
        lemma_chars_join(p.text + sep, t);
        assert(columns::columns(p.text) == wrap::chars_cols(p.text));
        assert(columns::columns(p.text + sep + t) == wrap::chars_cols(p.text + sep + t));
    }
}

/// A word wider than a line breaks one.
proof fn lemma_wide_word(
    f: Filling,
    chunks: Seq<Seq<char>>,
    style: Style,
    spaced: bool,
    cols: nat,
    n: nat,
    letters: Set<char>,
)
    requires
        regular(letters, cols),
        ends_right(f, letters),
        f.line.len() == 0 ==> f.col == 0,
        1 <= n <= chunks.len(),
        forall|i: int|
            0 <= i < chunks.len() ==> spelled(#[trigger] chunks[i], letters) && chunks[i].len() > 0,
    ensures
        ({
            let g = f.with_chunks(chunks, style, spaced, cols, n);
            &&& ends_right(g, letters)
            &&& g.line.len() > 0
            &&& g.lines.len() >= f.lines.len()
            &&& n == 1 ==> g.col >= columns::columns(chunks[0]) && g == f.with_chunk(
                chunks[0],
                style,
                spaced,
                cols,
            )
            &&& n >= 2 && columns::columns(chunks[0]) + columns::columns(chunks[1]) > cols
                ==> g.lines.len() > 0
        }),
    decreases n,
{
    reveal_with_fuel(Filling::with_chunks, 2);
    assert(spelled(chunks[n - 1], letters));
    if n == 1 {
        lemma_placed_ends(f, chunks[0], style, spaced, cols, letters);
    } else {
        lemma_wide_word(f, chunks, style, spaced, cols, (n - 1) as nat, letters);
        let before = f.with_chunks(chunks, style, spaced, cols, (n - 1) as nat);
        lemma_placed_ends(before, chunks[n - 1], style, false, cols, letters);
    }
}

/// Words fill one line as long as it has room for them all, and end where their columns do.
proof fn lemma_lines(toks: Seq<TokModel>, cols: nat, letters: Set<char>)
    requires
        all_words(toks),
        wrap::words_are_some(toks),
        words_spelled(toks, letters),
        regular(letters, cols),
    ensures
        ({
            let f = Filling { lines: seq![], line: seq![], col: 0 }.with_toks(toks, cols);
            &&& ends_right(f, letters)
            &&& toks.len() == 0 ==> f.line.len() == 0 && f.lines.len() == 0 && f.col == 0
            &&& toks.len() > 0 ==> f.line.len() > 0
            &&& toks_cols(toks) <= cols ==> f.lines.len() == 0 && f.col == toks_cols(toks)
            &&& toks_cols(toks) > cols ==> f.lines.len() > 0
        }),
    decreases toks.len(),
{
    if toks.len() > 0 {
        let front = toks.drop_last();
        assert forall|i: int| 0 <= i < front.len() implies (#[trigger] front[i]) is Word by {
            assert(front[i] == toks[i]);
        }
        assert forall|i: int| 0 <= i < front.len() implies ((
        #[trigger] front[i]) matches TokModel::Word { text, .. } ==> text.len() > 0) by {
            assert(front[i] == toks[i]);
        }
        assert forall|i: int| 0 <= i < front.len() implies ((
        #[trigger] front[i]) matches TokModel::Word { text, .. } ==> spelled(text, letters)) by {
            assert(front[i] == toks[i]);
        }
        lemma_lines(front, cols, letters);
        assert(toks[toks.len() - 1] is Word);
        if front.len() > 0 {
            assert(front[front.len() - 1] is Word);
        }
        let f = Filling { lines: seq![], line: seq![], col: 0 }.with_toks(front, cols);
        if let TokModel::Word { text, style, space_before } = toks.last() {
            let chunks = wrap::chunks_of(text, cols);
            assert(toks[toks.len() - 1] == toks.last());
            lemma_some_columns(text, letters, cols);
            if columns::columns(text) <= cols {
                assert(chunks == seq![text]);
            } else {
                lemma_chunks_break(text, cols, letters);
            }
            lemma_wide_word(f, chunks, style, space_before, cols, chunks.len(), letters);
        }
    }
}

/// A cell's natural width is the least it is not wrapped at: at that width or more its words stand on
/// one line. At less they stand on several, and on one line they end where that width does, as long
/// as they are spelled with letters that are as wide together as they are one by one.
pub proof fn law_the_natural_width_is_the_least(
    cell: Seq<InlineModel>,
    cols: nat,
    base: Style,
    letters: Set<char>,
)
    requires
        forall|i: int| 0 <= i < cell.len() ==> !((#[trigger] cell[i]) is Break),
        cols < usize::MAX,
    ensures
        natural(cell) <= cols ==> wrap::wrapped(cell, cols, base).len() <= 1,
        regular(letters, cols) && words_spelled(wrap::tokens_of(cell, base).out, letters) ==> {
            let lines = wrap::wrapped(cell, cols, base);
            &&& natural(cell) <= cols <==> lines.len() <= 1
            &&& lines.len() == 1 ==> lines[0].len() > 0 && line_end(lines[0]) == natural(cell)
            &&& lines.len() == 0 ==> natural(cell) == 0
        },
{
    let toks = wrap::tokens_of(cell, base).out;
    lemma_tokens_alike(cell, base, plain_style());
    lemma_alike_cols(toks, wrap::tokens_of(cell, plain_style()).out);
    lemma_no_breaks(cell, base);
    if natural(cell) <= cols {
        lemma_one_line(toks, cols);
    }
    if regular(letters, cols) && words_spelled(toks, letters) {
        wrap::lemma_tokens_are_some(cell, base);
        lemma_lines(toks, cols, letters);
    }
}

proof fn lemma_no_breaks(cell: Seq<InlineModel>, base: Style)
    requires
        forall|i: int| 0 <= i < cell.len() ==> !((#[trigger] cell[i]) is Break),
    ensures
        all_words(wrap::tokens_of(cell, base).out),
    decreases cell.len(),
{
    if cell.len() > 0 {
        let front = cell.drop_last();
        assert forall|i: int| 0 <= i < front.len() implies !((#[trigger] front[i]) is Break) by {
            assert(front[i] == cell[i]);
        }
        lemma_no_breaks(front, base);
        assert(!(cell[cell.len() - 1] is Break));
        let before = wrap::tokens_of(front, base).out;
        let after = wrap::tokens_of(cell, base).out;
        assert forall|i: int| 0 <= i < after.len() implies (#[trigger] after[i]) is Word by {
            if i < before.len() {
                assert(after[i] == before[i]);
            }
        }
    }
}

/// A tab becomes spaces up to the next stop, one at least and four at most, and every other character
/// stays as it is, behind what was there before it.
pub proof fn law_a_tab_is_spaces(s: Seq<char>, c: char)
    ensures
        ({
            let (before, tabbed, more) = (expanded(s), expanded(s.push('\t')), expanded(s.push(c)));
            let n = tabbed.out.len() - before.out.len();
            &&& 1 <= n <= 4
            &&& tabbed.out.take(before.out.len() as int) == before.out
            &&& forall|i: int| before.out.len() <= i < tabbed.out.len() ==> tabbed.out[i] == ' '
            &&& tabbed.col == before.col + n
            &&& tabbed.col % 4 == 0
            &&& c != '\t' ==> more.out == before.out.push(c) && more.col == before.col
                + columns::char_cols(c)
            &&& expanded(seq![]).out.len() == 0 && expanded(seq![]).col == 0
        }),
{
    assert(s.push('\t').drop_last() =~= s);
    assert(s.push(c).drop_last() =~= s);
    let (before, tabbed) = (expanded(s), expanded(s.push('\t')));
    assert(tabbed.out.take(before.out.len() as int) =~= before.out);
}

/// The words of an outline's entry are those of its heading, one inline behind the other: text as it
/// is, a picture by its description, a footnote by its number in brackets and a break as a space.
pub proof fn law_an_entry_reads_as_its_heading(a: Seq<InlineModel>, i: InlineModel)
    ensures
        flattened(seq![]).len() == 0,
        flattened(a.push(i)) == flattened(a) + (match i {
            InlineModel::Text { text, style } => text,
            InlineModel::Image { alt } => alt,
            InlineModel::Note { number } => seq!['['] + text::dec(number) + seq![']'],
            InlineModel::Break => seq![' '],
        }),
{
    assert(a.push(i).drop_last() =~= a);
    reveal_strlit("[");
    reveal_strlit("]");
    if let InlineModel::Note { number } = i {
        assert("["@ + text::dec(number) + "]"@ =~= seq!['['] + text::dec(number) + seq![']']);
    }
}

/// A column asks for as much as its widest cell, head or not, and no more.
pub proof fn law_a_column_asks_for_its_widest_cell(t: TableModel, n: nat, i: int, r: int)
    requires
        0 <= i < n,
    ensures
        natural_widths(t, n).len() == n,
        i < t.head.len() ==> natural(t.head[i]) <= natural_widths(t, n)[i],
        0 <= r < t.rows.len() && i < t.rows[r].len() ==> natural(t.rows[r][i]) <= natural_widths(
            t,
            n,
        )[i],
        natural_widths(t, n)[i] == 1 || (i < t.head.len() && natural_widths(t, n)[i] == natural(
            t.head[i],
        )) || exists|k: int|
            0 <= k < t.rows.len() && i < (#[trigger] t.rows[k]).len() && natural_widths(t, n)[i]
                == natural(t.rows[k][i]),
{
    let rows = all_rows(t);
    let m = rows.len() as int;
    assert(rows[0] == t.head);
    lemma_asked_covers(rows, i, m, 0);
    if 0 <= r < t.rows.len() {
        assert(rows[r + 1] == t.rows[r]);
        lemma_asked_covers(rows, i, m, r + 1);
    }
    let k = lemma_asked_by(rows, i, m);
    if asked(rows, i, m) != 1 && k > 0 {
        assert(rows[k] == t.rows[k - 1]);
    }
}

proof fn lemma_asked_covers(rows: Seq<Seq<Seq<InlineModel>>>, i: int, k: int, r: int)
    requires
        0 <= r < k <= rows.len(),
        0 <= i,
    ensures
        i < rows[r].len() ==> natural(rows[r][i]) <= asked(rows, i, k),
    decreases k,
{
    if r < k - 1 {
        lemma_asked_covers(rows, i, k - 1, r);
    }
}

proof fn lemma_asked_by(rows: Seq<Seq<Seq<InlineModel>>>, i: int, k: int) -> (r: int)
    requires
        0 <= k <= rows.len(),
        0 <= i,
    ensures
        asked(rows, i, k) != 1 ==> 0 <= r < k && i < rows[r].len() && asked(rows, i, k) == natural(
            rows[r][i],
        ),
    decreases k,
{
    if k <= 0 {
        0
    } else {
        let before = lemma_asked_by(rows, i, k - 1);
        if i < rows[k - 1].len() && natural(rows[k - 1][i]) >= asked(rows, i, k - 1) {
            k - 1
        } else {
            before
        }
    }
}

/// The widest columns shrink first, and only as far as it takes: a column that was shrunk is as wide as
/// any other, but for one character, and the columns fill the room there is.
pub proof fn law_the_widest_column_shrinks_first(widths: Seq<nat>, avail: nat, i: int, j: int)
    requires
        avail >= widths.len(),
        forall|k: int| 0 <= k < widths.len() ==> #[trigger] widths[k] >= 1,
        0 <= i < widths.len(),
        0 <= j < widths.len(),
    ensures
        shrunk(widths, avail)[i] < widths[i] ==> shrunk(widths, avail)[j] <= shrunk(widths, avail)[i]
            + 1,
        sum(widths) > avail ==> sum(shrunk(widths, avail)) == avail,
{
    lemma_shrinks_evenly(widths, widths, avail, i, j);
}

proof fn lemma_shrinks_evenly(from: Seq<nat>, widths: Seq<nat>, avail: nat, i: int, j: int)
    requires
        from.len() == widths.len(),
        avail >= widths.len(),
        forall|k: int| 0 <= k < widths.len() ==> #[trigger] widths[k] >= 1,
        0 <= i < widths.len(),
        0 <= j < widths.len(),
        widths[i] <= from[i],
        widths[i] < from[i] ==> widths[j] <= widths[i] + 1,
    ensures
        shrunk(widths, avail)[i] < from[i] ==> shrunk(widths, avail)[j] <= shrunk(widths, avail)[i]
            + 1,
        sum(widths) >= avail ==> sum(shrunk(widths, avail)) == avail,
    decreases sum(widths),
{
    lemma_widest(widths);
    let at = widest(widths);
    if sum(widths) > avail {
        if widths[at] <= 1 {
            assert forall|k: int| 0 <= k < widths.len() implies #[trigger] widths[k] <= 1 by {}
            lemma_all_ones(widths);
        } else {
            let next = widths.update(at, (widths[at] - 1) as nat);
            lemma_sum_update(widths, at, (widths[at] - 1) as nat);
            assert(widths[j] <= widths[at]);
            lemma_shrinks_evenly(from, next, avail, i, j);
        }
    }
}

/// Words as they read on one line: a space before each that whitespace stood before, but the first.
pub open spec fn read_out(toks: Seq<TokModel>) -> Seq<char>
    decreases toks.len(),
{
    if toks.len() == 0 {
        seq![]
    } else {
        let before = read_out(toks.drop_last());
        match toks.last() {
            TokModel::Word { text, style, space_before } => if space_before && toks.len() > 1 {
                before + seq![' '] + text
            } else {
                before + text
            },
            TokModel::Break => before,
        }
    }
}

/// Whether every word is in one style.
pub open spec fn one_style(toks: Seq<TokModel>, style: Style) -> bool {
    forall|i: int|
        0 <= i < toks.len() ==> ((#[trigger] toks[i]) matches TokModel::Word { style: of, .. } && of
            == style)
}

proof fn lemma_reads_out(toks: Seq<TokModel>, cols: nat, style: Style, letters: Set<char>)
    requires
        one_style(toks, style),
        wrap::words_are_some(toks),
        words_spelled(toks, letters),
        regular(letters, cols),
        toks_cols(toks) <= cols,
    ensures
        ({
            let f = (Filling { lines: seq![], line: seq![], col: 0 }).with_toks(toks, cols);
            &&& f.lines.len() == 0
            &&& f.col == toks_cols(toks) == wrap::chars_cols(read_out(toks))
            &&& spelled(read_out(toks), letters)
            &&& toks.len() == 0 ==> f.line.len() == 0
            &&& toks.len() > 0 ==> f.col > 0 && f.line == seq![
                PieceModel { col: 0, text: read_out(toks), style },
            ]
        }),
    decreases toks.len(),
{
    if toks.len() > 0 {
        let front = toks.drop_last();
        assert forall|i: int| 0 <= i < front.len() implies ((
        #[trigger] front[i]) matches TokModel::Word { style: of, .. } && of == style) by {
            assert(front[i] == toks[i]);
        }
        assert forall|i: int| 0 <= i < front.len() implies ((
        #[trigger] front[i]) matches TokModel::Word { text, .. } ==> text.len() > 0) by {
            assert(front[i] == toks[i]);
        }
        assert forall|i: int| 0 <= i < front.len() implies ((
        #[trigger] front[i]) matches TokModel::Word { text, .. } ==> spelled(text, letters)) by {
            assert(front[i] == toks[i]);
        }
        lemma_reads_out(front, cols, style, letters);
        let last = toks[toks.len() - 1];
        assert(last == toks.last());
        if front.len() > 0 {
            assert(front[front.len() - 1] is Word);
        }
        let f = (Filling { lines: seq![], line: seq![], col: 0 }).with_toks(front, cols);
        let before = read_out(front);
        if let TokModel::Word { text, style: of, space_before } = last {
            assert(of == style);
            assert(wrap::chunks_of(text, cols) == seq![text]);
            reveal_with_fuel(Filling::with_chunks, 2);
            assert(f.with_tok(last, cols) == f.with_chunk(text, style, space_before, cols));
            lemma_some_columns(text, letters, cols);
            reveal_strlit(" ");
            let sep = if space_before && toks.len() > 1 {
                seq![' ']
            } else {
                seq![]
            };
            assert(" "@ =~= seq![' ']);
            assert(spelled(sep, letters));
            assert(seq![' '].drop_last() =~= seq![]);
            assert(wrap::chars_cols(seq![' '].drop_last()) == 0);
            lemma_spelled_joins(before, sep, letters);
            lemma_spelled_joins(before + sep, text, letters);
            lemma_chars_join(before, sep);
            lemma_chars_join(before + sep, text);
            assert(before + sep + text =~= read_out(toks));
            assert(columns::columns(before) == wrap::chars_cols(before));
            let g = f.with_chunk(text, style, space_before, cols);
            if front.len() > 0 {
                assert(g.line =~= seq![PieceModel { col: 0, text: read_out(toks), style }]);
            } else {
                assert(before =~= seq![]);
                assert(read_out(toks) =~= text);
                assert(g.line =~= seq![PieceModel { col: 0, text: read_out(toks), style }]);
            }
        }
    }
}

/// Text of one style that fits a line is that line: its words, one space between each two that
/// whitespace stood between, from the first column on.
pub proof fn law_a_line_reads_as_its_words(
    inlines: Seq<InlineModel>,
    cols: nat,
    base: Style,
    style: Style,
    letters: Set<char>,
)
    requires
        ({
            let toks = wrap::tokens_of(inlines, base).out;
            &&& toks.len() > 0
            &&& one_style(toks, style)
            &&& words_spelled(toks, letters)
            &&& regular(letters, cols)
            &&& toks_cols(toks) <= cols
        }),
    ensures
        wrap::wrapped(inlines, cols, base) == seq![
            seq![
                PieceModel {
                    col: 0,
                    text: read_out(wrap::tokens_of(inlines, base).out),
                    style,
                },
            ],
        ],
{
    let toks = wrap::tokens_of(inlines, base).out;
    wrap::lemma_tokens_are_some(inlines, base);
    lemma_reads_out(toks, cols, style, letters);
    let f = (Filling { lines: seq![], line: seq![], col: 0 }).with_toks(toks, cols);
    assert(wrap::wrapped(inlines, cols, base) =~= seq![f.line]);
}

/// The words of text are what stands between its whitespace, and there is a space before the first of
/// them only where whitespace stands before it, and before each other.
pub proof fn law_words_stand_between_whitespace(t: Seq<char>, style: Style, base: Style, i: int)
    requires
        0 <= i < wrap::words(t).len(),
    ensures
        ({
            let toks = wrap::tokens_of(seq![InlineModel::Text { text: t, style }], base).out;
            &&& toks.len() == wrap::words(t).len()
            &&& toks[i] matches TokModel::Word { text, style: of, space_before } && {
                &&& text == wrap::words(t)[i]
                &&& of.bold == (style.bold || base.bold)
                &&& of.italic == (style.italic || base.italic)
                &&& of.code == style.code && of.strike == style.strike && of.link == style.link
                &&& i > 0 ==> space_before
                &&& i == 0 ==> space_before == text::is_space(t[0])
            }
        }),
{
    let one = seq![InlineModel::Text { text: t, style }];
    assert(one.drop_last() =~= seq![]);
    assert(wrap::tokens_of(one.drop_last(), base).out.len() == 0);
}

/// A table that does not fit fills the line: its columns and the gaps of two between them take it whole,
/// as long as there is a character for each column.
pub proof fn law_a_wide_table_fills_the_line(t: TableModel, n: nat, total: nat)
    requires
        n > 0,
        total >= n + 2 * (n - 1),
        sum(natural_widths(t, n)) + 2 * (n - 1) > total,
    ensures
        sum(table_widths(t, n, total)) + 2 * (n - 1) == total,
{
    let widths = natural_widths(t, n);
    assert forall|i: int| 0 <= i < widths.len() implies #[trigger] widths[i] >= 1 by {
        lemma_asked(all_rows(t), i, all_rows(t).len() as int);
    }
    law_the_widest_column_shrinks_first(widths, available(n, total), 0, 0);
}

} // verus!
