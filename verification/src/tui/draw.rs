//! What the viewer writes to the terminal.

use vstd::prelude::*;

use crate::geometry;
use crate::render::kitty;
use crate::render::kitty::{place, Placement};
use crate::source::index::{Hit, Index, Line};
use crate::source::Kind;
use crate::text;
use crate::text::{chars_of, control, push_dec};
use crate::tui::bands;
use crate::tui::bands::{placed, Placed};
use crate::tui::view;
use crate::tui::view::{placement, Aim, Shown};

verus! {

/// How long each spinner frame is shown, in milliseconds.
pub const SPIN_TICK: u64 = 80;

/// How long a load may take before the spinner appears, in milliseconds.
pub const PATIENCE: u64 = 120;

/// `s` without control characters.
//
// the line carries a filename and a decoder's error
// string, neither of which gat chose: a name may
// legally hold ESC, and writing it back would run
// whatever sequence it spells. C1 is covered as well,
// which an 8-bit CSI would otherwise slip through
pub open spec fn visible(s: Seq<char>) -> Seq<char>
    decreases s.len(),
{
    if s.len() == 0 {
        s
    } else if text::is_control(s.last()) {
        visible(s.drop_last())
    } else {
        visible(s.drop_last()).push(s.last())
    }
}

/// The first `n` of `s`, or all where there are no more.
pub open spec fn first(s: Seq<char>, n: int) -> Seq<char> {
    if n < s.len() {
        s.take(n)
    } else {
        s
    }
}

/// A line of text on the bottom row, clipped to the width.
pub open spec fn status_of(cells: (u32, u32), t: Seq<char>) -> Seq<char> {
    "\x1b["@ + text::dec(cells.1 as nat) + ";1H\x1b[K"@ + first(visible(t), cells.0 as int)
}

/// Write `t` on the bottom row, clipped to the width.
pub fn status_line(out: &mut String, cells: (u32, u32), t: &str)
    ensures
        final(out)@ == old(out)@ + status_of(cells, t@),
{
    out.push_str("\x1b[");
    push_dec(out, cells.1 as u64);
    out.push_str(";1H\x1b[K");
    let chars = chars_of(t);
    let ghost head = out@;
    let mut left: u32 = cells.0;
    let mut i: usize = 0;
    assert(first(visible(t@.take(0)), cells.0 as int) =~= seq![]);
    while i < chars.len()
        invariant
            chars@ == t@,
            i <= chars@.len(),
            left <= cells.0,
            left > 0 ==> visible(t@.take(i as int)).len() == cells.0 - left,
            left == 0 ==> visible(t@.take(i as int)).len() >= cells.0,
            out@ =~= head + first(visible(t@.take(i as int)), cells.0 as int),
        decreases chars.len() - i,
    {
        assert(t@.take(i + 1).drop_last() =~= t@.take(i as int));
        if !control(chars[i]) && left > 0 {
            out.push(chars[i]);
            left -= 1;
        }
        i += 1;
    }
    assert(t@.take(i as int) =~= t@);
    assert(out@ =~= old(out)@ + status_of(cells, t@));
}

/// No control character reaches the terminal through the status line.
pub proof fn law_what_is_visible_is_no_control(s: Seq<char>)
    ensures
        forall|i: int| 0 <= i < visible(s).len() ==> !text::is_control(#[trigger] visible(s)[i]),
    decreases s.len(),
{
    if s.len() > 0 {
        law_what_is_visible_is_no_control(s.drop_last());
        let before = visible(s.drop_last());
        assert forall|i: int| 0 <= i < visible(s).len() implies !text::is_control(
            #[trigger] visible(s)[i],
        ) by {
            if i < before.len() {
                assert(visible(s)[i] == before[i]);
            }
        }
    }
}

/// Ordinary text is shown as it is.
pub proof fn law_ordinary_text_is_kept(s: Seq<char>)
    requires
        forall|i: int| 0 <= i < s.len() ==> !text::is_control(#[trigger] s[i]),
    ensures
        visible(s) == s,
    decreases s.len(),
{
    if s.len() > 0 {
        law_ordinary_text_is_kept(s.drop_last());
        assert(s.drop_last().push(s.last()) =~= s);
    }
}

/// The glyph of a frame of the spinner.
//
// braille cycles read as motion and cost one cell
pub open spec fn frame_glyph(i: int) -> char {
    if i == 0 {
        '\u{280b}'
    } else if i == 1 {
        '\u{2819}'
    } else if i == 2 {
        '\u{2839}'
    } else if i == 3 {
        '\u{2838}'
    } else if i == 4 {
        '\u{283c}'
    } else if i == 5 {
        '\u{2834}'
    } else if i == 6 {
        '\u{2826}'
    } else if i == 7 {
        '\u{2827}'
    } else if i == 8 {
        '\u{2807}'
    } else {
        '\u{280f}'
    }
}

/// Which spinner glyph belongs to a wait of `elapsed` milliseconds.
pub fn spinner_frame(elapsed: u64) -> (r: char)
    ensures
        r == frame_glyph((elapsed / SPIN_TICK) as int % 10),
{
    let i: u64 = (elapsed / SPIN_TICK) % 10;
    match i {
        0 => '\u{280b}',
        1 => '\u{2819}',
        2 => '\u{2839}',
        3 => '\u{2838}',
        4 => '\u{283c}',
        5 => '\u{2834}',
        6 => '\u{2826}',
        7 => '\u{2827}',
        8 => '\u{2807}',
        _ => '\u{280f}',
    }
}

/// The spinner comes round: a whole cycle later it shows the same.
pub proof fn law_the_spinner_cycles(elapsed: int)
    requires
        elapsed >= 0,
    ensures
        frame_glyph((elapsed + 10 * SPIN_TICK) / SPIN_TICK as int % 10) == frame_glyph(
            elapsed / SPIN_TICK as int % 10,
        ),
{
}

/// Where a file stands among the others.
pub open spec fn place_among(index: nat, count: nat) -> Seq<char> {
    "["@ + text::dec(index + 1) + "/"@ + text::dec(count) + "]"@
}

fn push_place(out: &mut String, index: usize, count: usize)
    requires
        index < count,
    ensures
        final(out)@ == old(out)@ + place_among(index as nat, count as nat),
{
    out.push_str("[");
    push_dec(out, index as u64 + 1);
    out.push_str("/");
    push_dec(out, count as u64);
    out.push_str("]");
    assert(out@ =~= old(out)@ + place_among(index as nat, count as nat));
}

/// What is said while a decode runs, `elapsed` milliseconds in.
pub open spec fn waiting(name: Seq<char>, index: nat, count: nat, elapsed: int) -> Seq<char> {
    let tenths = (elapsed + 50) / 100;
    seq![frame_glyph(elapsed / SPIN_TICK as int % 10)] + " rendering "@ + name + "  "@
        + place_among(index, count) + "  "@ + text::dec((tenths / 10) as nat) + "."@ + text::dec(
        (tenths % 10) as nat,
    ) + "s  q quits"@
}

/// The status line shown while a decode runs, `elapsed` milliseconds in.
pub fn spinner_text(name: &str, index: usize, count: usize, elapsed: u64) -> (r: String)
    requires
        index < count,
    ensures
        r@ == waiting(name@, index as nat, count as nat, elapsed as int),
{
    let tenths: u64 = elapsed / 100 + if elapsed % 100 >= 50 {
        1
    } else {
        0
    };
    let mut out = String::new();
    out.push(spinner_frame(elapsed));
    out.push_str(" rendering ");
    out.push_str(name);
    out.push_str("  ");
    push_place(&mut out, index, count);
    out.push_str("  ");
    push_dec(&mut out, tenths / 10);
    out.push_str(".");
    push_dec(&mut out, tenths % 10);
    out.push_str("s  q quits");
    assert(out@ =~= waiting(name@, index as nat, count as nat, elapsed as int));
    out
}

/// Where a hit is underlined: the row and the column of the window, and how many columns of it.
//
// page pixels to cells. the page is drawn 1:1, so a
// row is a row and a column is a column
//
// the last row the box covers, not the first: a
// heading sits on the bottom of a box two rows deep,
// and underlining the top one strikes it through
//
// a heading's columns are wider than the terminal's,
// so the run is measured in pixels and back again
pub open spec fn mark_place(s: Shown, ix: Index, p: Placement, line: Line, hit: Hit) -> Option<
    (int, int, int),
> {
    let last = geometry::capped(line.y + line.h - 1, u32::MAX as int);
    let down = last * (ix.row * s.den) - p.src_y * s.num;
    let x = reached(line.x + reached(hit.col * line.advance));
    let across = x * (ix.column * s.den) - p.src_x * (204_800 * s.num);
    let row = geometry::nearest(down, s.cell.h * s.den);
    let col = geometry::nearest(across, 204_800 * (s.cell.w * s.den));
    let wide = geometry::some(
        geometry::nearest(reached(hit.cols * line.advance) * ix.column, 204_800 * s.cell.w),
    );
    if down < 0 || across < 0 || row >= p.rows || col >= p.cols {
        None
    } else {
        Some((row, col, geometry::capped(wide, p.cols - col)))
    }
}

/// A position, or the last there is where it lies beyond.
pub open spec fn reached(n: int) -> int {
    geometry::capped(n, usize::MAX as int)
}

fn times(a: usize, b: usize) -> (r: usize)
    ensures
        r == reached(a * b),
{
    assert(0 <= a * b <= 0xffff_ffff_ffff_ffff * 0xffff_ffff_ffff_ffff) by (nonlinear_arith)
        requires
            0 <= a <= 0xffff_ffff_ffff_ffff,
            0 <= b <= 0xffff_ffff_ffff_ffff,
    ;
    let n: u128 = a as u128 * b as u128;
    if n > usize::MAX as u128 {
        usize::MAX
    } else {
        n as usize
    }
}

fn mark_at(s: &Shown, ix: &Index, p: &Placement, line: &Line, hit: &Hit) -> (r: Option<
    (u32, u32, u32),
>)
    requires
        s.wf(),
        ix.column <= 0xffff,
    ensures
        match r {
            Some((row, col, width)) => mark_place(*s, *ix, *p, *line, *hit) == Some(
                (row as int, col as int, width as int),
            ) && row < p.rows && col < p.cols,
            None => mark_place(*s, *ix, *p, *line, *hit) is None,
        },
{
    let both: u128 = line.y as u128 + line.h as u128;
    let last: i128 = if both > 0x1_0000_0000 {
        0xffff_ffff
    } else {
        both as i128 - 1
    };
    let ghost seen_last = geometry::capped(line.y + line.h - 1, u32::MAX as int);
    assert(last == seen_last);
    proof {
        geometry::lemma_product(ix.row as int, s.den as int);
        geometry::lemma_product(p.src_y as int, s.num as int);
        geometry::lemma_product(s.cell.h as int, s.den as int);
        geometry::lemma_product(s.cell.w as int, s.den as int);
        geometry::lemma_product(ix.column as int, s.den as int);
        assert(0 < s.cell.h * s.den && 0 < s.cell.w * s.den) by (nonlinear_arith)
            requires
                0 < s.cell.h,
                0 < s.cell.w,
                0 < s.den,
        ;
        let tall = ix.row * s.den;
        assert(-0xffff_ffff_ffff_ffff <= last * tall <= 0xffff_ffff * 0xffff_ffff_ffff_ffff)
            by (nonlinear_arith)
            requires
                -1 <= last <= 0xffff_ffff,
                0 <= tall <= 0xffff_ffff * 0xffff_ffff,
        ;
    }
    let tall: i128 = ix.row as i128 * s.den as i128;
    let down: i128 = last * tall - p.src_y as i128 * s.num as i128;
    let x: usize = line.x.saturating_add(times(hit.col, line.advance));
    assert(x == reached(line.x + reached(hit.col * line.advance)));
    proof {
        let step = ix.column * s.den;
        assert(0 <= step <= 0xffff * 0xffff_ffff) by (nonlinear_arith)
            requires
                step == ix.column * s.den,
                0 <= ix.column <= 0xffff,
                0 <= s.den <= 0xffff_ffff,
        ;
        assert(0 <= x * step <= 0xffff_ffff_ffff_ffff * (0xffff * 0xffff_ffff))
            by (nonlinear_arith)
            requires
                0 <= x <= 0xffff_ffff_ffff_ffff,
                0 <= step <= 0xffff * 0xffff_ffff,
        ;
        let edge = 204_800 * s.num;
        assert(0 <= p.src_x * edge <= 0xffff_ffff * (204_800 * 0xffff_ffff)) by (nonlinear_arith)
            requires
                0 <= p.src_x <= 0xffff_ffff,
                0 <= edge <= 204_800 * 0xffff_ffff,
        ;
    }
    let across: i128 = x as i128 * (ix.column as i128 * s.den as i128) - p.src_x as i128 * (204_800
        * s.num as i128);
    if down < 0 || across < 0 {
        return None;
    }
    let cell_h: i128 = s.cell.h as i128 * s.den as i128;
    let cell_w: i128 = 204_800 * (s.cell.w as i128 * s.den as i128);
    let row: i128 = (2 * down + cell_h) / (2 * cell_h);
    let col: i128 = (2 * across + cell_w) / (2 * cell_w);
    if row >= p.rows as i128 || col >= p.cols as i128 {
        return None;
    }
    let long: usize = times(hit.cols, line.advance);
    assert(long == reached(hit.cols * line.advance));
    proof {
        assert(0 <= long * ix.column <= 0xffff_ffff_ffff_ffff * 0xffff) by (nonlinear_arith)
            requires
                0 <= long <= 0xffff_ffff_ffff_ffff,
                0 <= ix.column <= 0xffff,
        ;
        geometry::lemma_quotient(2 * down + cell_h, 2 * cell_h);
        geometry::lemma_quotient(2 * across + cell_w, 2 * cell_w);
    }
    let one: i128 = 204_800 * s.cell.w as i128;
    let wide: i128 = (2 * (long as i128 * ix.column as i128) + one) / (2 * one);
    proof {
        geometry::lemma_quotient(2 * (long * ix.column) + one, 2 * one);
    }
    let left: u32 = p.cols - col as u32;
    let width: u32 = if wide < 1 {
        1
    } else if wide > left as i128 {
        left
    } else {
        wide as u32
    };
    Some((row as u32, col as u32, width))
}

/// The colour a hit is underlined in: the hit you are on, and the others.
//
// pink because it has to be findable at a glance and must
// not read as a link, a callout or a code span, which are
// blue, amber and salmon
pub open spec fn mark_colour(bright: bool) -> Seq<char> {
    if bright {
        "255;95;175"@
    } else {
        "143;63;111"@
    }
}

/// Cells underlined, and nothing else written in them.
//
// spaces, not the matched word: a cell over an image at z=-1
// paints its glyph and not its background, so anything drawn
// here would land on top of the word rather than behind it.
// only the underline shows, which is the point
//
// 58 colours the underline itself where the terminal
// has it; 38 is what it falls back to otherwise
pub open spec fn underline(row: int, col: int, width: int, bright: bool) -> Seq<char> {
    "\x1b["@ + text::dec((row + 1) as nat) + ";"@ + text::dec((col + 1) as nat)
        + "H\x1b[4m\x1b[58;2;"@ + mark_colour(bright) + "m\x1b[38;2;"@ + mark_colour(bright) + "m"@
        + Seq::new(width as nat, |i: int| ' ') + "\x1b[0m"@
}

fn push_colour(out: &mut String, bright: bool)
    ensures
        final(out)@ == old(out)@ + mark_colour(bright),
{
    if bright {
        out.push_str("255;95;175");
    } else {
        out.push_str("143;63;111");
    }
}

fn push_underline(out: &mut String, row: u32, col: u32, width: u32, bright: bool)
    ensures
        final(out)@ == old(out)@ + underline(row as int, col as int, width as int, bright),
{
    out.push_str("\x1b[");
    push_dec(out, row as u64 + 1);
    out.push_str(";");
    push_dec(out, col as u64 + 1);
    out.push_str("H\x1b[4m\x1b[58;2;");
    push_colour(out, bright);
    out.push_str("m\x1b[38;2;");
    push_colour(out, bright);
    out.push_str("m");
    let ghost head = out@;
    let mut i: u32 = 0;
    while i < width
        invariant
            i <= width,
            out@ =~= head + Seq::new(i as nat, |k: int| ' '),
        decreases width - i,
    {
        out.push(' ');
        i += 1;
    }
    out.push_str("\x1b[0m");
    assert(out@ =~= old(out)@ + underline(row as int, col as int, width as int, bright));
}

/// One hit underlined, where the window shows it.
pub open spec fn marked(s: Shown, ix: Index, p: Placement, hit: Hit, bright: bool) -> Seq<char> {
    if hit.line >= ix.lines@.len() {
        seq![]
    } else {
        match mark_place(s, ix, p, ix.lines@[hit.line as int], hit) {
            Some((row, col, width)) => underline(row, col, width, bright),
            None => seq![],
        }
    }
}

/// The hits underlined, the one you are on in a colour of its own.
pub open spec fn marks(s: Shown, ix: Index, p: Placement, hits: Seq<Hit>, at: int) -> Seq<char>
    decreases hits.len(),
{
    if hits.len() == 0 {
        seq![]
    } else {
        marks(s, ix, p, hits.drop_last(), at) + marked(
            s,
            ix,
            p,
            hits.last(),
            hits.len() - 1 == at,
        )
    }
}

/// What underlining the hits of a search writes over what is shown.
pub open spec fn marks_of(s: Shown, v: Aim, cells: (u32, u32), hits: Seq<Hit>, at: int) -> Seq<
    char,
> {
    match s.index {
        Some(ix) => marks(s, ix, view::placement_of(s, v, cells), hits, at),
        None => seq![],
    }
}

/// Underline the search hits, as terminal text over the page.
//
// the terminal holds the page as one image, so a box drawn
// into it would mean re-encoding and sending the whole page
// again. these are cells, and cost a few bytes a frame
pub fn mark(out: &mut String, s: &Shown, v: &Aim, cells: (u32, u32), hits: &[Hit], at: usize)
    requires
        s.wf(),
        v.wf(),
        view::reported(cells),
    ensures
        final(out)@ == old(out)@ + marks_of(*s, *v, cells, hits@, at as int),
{
    let ghost head = out@;
    match &s.index {
        None => {
            assert(out@ =~= head + Seq::<char>::empty());
        },
        Some(ix) => {
            let p = placement(s, v, cells);
            let mut n: usize = 0;
            assert(out@ =~= head + marks(*s, *ix, p, hits@.take(0), at as int));
            while n < hits.len()
                invariant
                    n <= hits@.len(),
                    s.wf(),
                    ix.column <= 0xffff,
                    out@ == head + marks(*s, *ix, p, hits@.take(n as int), at as int),
                decreases hits.len() - n,
            {
                assert(hits@.take(n + 1).drop_last() =~= hits@.take(n as int));
                let hit = hits[n];
                let ghost before = out@;
                if hit.line < ix.lines.len() {
                    if let Some((row, col, width)) = mark_at(s, ix, &p, &ix.lines[hit.line], &hit) {
                        push_underline(out, row, col, width, n == at);
                    }
                }
                assert(out@ =~= before + marked(*s, *ix, p, hit, n == at));
                assert(out@ =~= head + marks(*s, *ix, p, hits@.take(n + 1), at as int));
                n += 1;
            }
            assert(hits@.take(n as int) =~= hits@);
        },
    }
}

/// Bands placed, each where the cursor is put first.
//
// each band is placed where the cursor is, and the
// protocol's C=1 leaves the cursor alone, so the
// caller says where every one of them goes
pub open spec fn placing_all(p: Seq<Placed>) -> Seq<char>
    decreases p.len(),
{
    if p.len() == 0 {
        seq![]
    } else {
        placing_all(p.drop_last()) + "\x1b["@ + text::dec(p.last().row as nat + 1) + ";1H"@
            + kitty::placing(p.last().id, p.last().p)
    }
}

fn place_all(out: &mut String, p: &Vec<Placed>)
    ensures
        final(out)@ == old(out)@ + placing_all(p@),
{
    let mut i: usize = 0;
    assert(old(out)@ + placing_all(p@.take(0)) =~= old(out)@);
    while i < p.len()
        invariant
            i <= p@.len(),
            out@ == old(out)@ + placing_all(p@.take(i as int)),
        decreases p.len() - i,
    {
        assert(p@.take(i + 1).drop_last() =~= p@.take(i as int));
        out.push_str("\x1b[");
        push_dec(out, p[i].row as u64 + 1);
        out.push_str(";1H");
        place(out, p[i].id, &p[i].p);
        assert(out@ =~= old(out)@ + placing_all(p@.take(i + 1)));
        i += 1;
    }
    assert(p@.take(i as int) =~= p@);
}

/// Whether what is on screen is a page of text rather than a picture.
pub open spec fn is_document(shown: Option<Shown>) -> bool {
    shown matches Some(s) && s.kind == Kind::Document
}

/// Whether what is on screen is a page of text rather than a picture.
pub fn document(shown: &Option<Shown>) -> (r: bool)
    ensures
        r == is_document(*shown),
{
    match shown {
        Some(s) => match s.kind {
            Kind::Document => true,
            Kind::Image => false,
        },
        None => false,
    }
}

/// What the status line says.
//
// the keys a picture has are not the keys a document
// has, and listing both leaves neither room to read
pub open spec fn status(
    name: Seq<char>,
    index: nat,
    count: nat,
    failure: Option<Seq<char>>,
    note: Option<Seq<char>>,
    document: bool,
    percent: nat,
) -> Seq<char> {
    match (failure, note) {
        (Some(e), _) => name + "  "@ + e,
        (None, Some(n)) => name + "  "@ + n,
        (None, None) => if document {
            name + "  "@ + place_among(index, count)
                + "  hjkl pan  gG ends  / find  nN match  }{ head  tab file  q quit"@
        } else {
            name + "  "@ + place_among(index, count) + "  "@ + text::dec(percent)
                + "%  hjkl pan  +- zoom  0 reset  tab file  q quit"@
        },
    }
}

/// A string that may be, as characters.
pub open spec fn chars(s: Option<String>) -> Option<Seq<char>> {
    match s {
        Some(s) => Some(s@),
        None => None,
    }
}

/// How close a picture is seen, in percent.
pub open spec fn percent_of(v: Aim) -> nat {
    geometry::nearest(100 * v.zoom.num, v.zoom.den as int) as nat
}

fn status_text(
    name: &str,
    index: usize,
    count: usize,
    failure: &Option<String>,
    note: &Option<String>,
    document: bool,
    v: &Aim,
) -> (r: String)
    requires
        index < count,
        v.wf(),
    ensures
        r@ == status(
            name@,
            index as nat,
            count as nat,
            chars(*failure),
            chars(*note),
            document,
            percent_of(*v),
        ),
{
    let mut out = String::new();
    out.push_str(name);
    out.push_str("  ");
    match failure {
        Some(e) => {
            out.push_str(e.as_str());
        },
        None => match note {
            Some(n) => {
                out.push_str(n.as_str());
            },
            None => {
                push_place(&mut out, index, count);
                if document {
                    out.push_str("  hjkl pan  gG ends  / find  nN match  }{ head  tab file  q quit");
                } else {
                    let percent: u64 = (2 * (100 * v.zoom.num) + v.zoom.den) / (2 * v.zoom.den);
                    out.push_str("  ");
                    push_dec(&mut out, percent);
                    out.push_str("%  hjkl pan  +- zoom  0 reset  tab file  q quit");
                }
            },
        },
    }
    assert(out@ =~= status(
        name@,
        index as nat,
        count as nat,
        chars(*failure),
        chars(*note),
        document,
        percent_of(*v),
    ));
    out
}

/// A screen of the viewer.
//
// erase from the cursor down clears text but, per the protocol, must not
// touch graphics; only a full CSI 2 J would drop the image as well
pub open spec fn screen(
    shown: Option<Shown>,
    v: Aim,
    cells: (u32, u32),
    line: Seq<char>,
    hits: Seq<Hit>,
    at: int,
) -> Seq<char> {
    "\x1b[H\x1b[J"@ + (match shown {
        Some(s) => placing_all(bands::placed_of(s, v, cells)) + marks_of(s, v, cells, hits, at),
        None => seq![],
    }) + status_of(cells, line)
}

/// Draw a screen of the viewer.
pub fn draw(
    out: &mut String,
    shown: &Option<Shown>,
    v: &Aim,
    cells: (u32, u32),
    name: &str,
    index: usize,
    count: usize,
    failure: &Option<String>,
    note: &Option<String>,
    hits: &[Hit],
    at: usize,
)
    requires
        shown matches Some(s) ==> s.wf(),
        v.wf(),
        view::reported(cells),
        index < count,
    ensures
        final(out)@ == old(out)@ + screen(
            *shown,
            *v,
            cells,
            status(
                name@,
                index as nat,
                count as nat,
                chars(*failure),
                chars(*note),
                is_document(*shown),
                percent_of(*v),
            ),
            hits@,
            at as int,
        ),
{
    out.push_str("\x1b[H\x1b[J");
    let ghost head = out@;
    match shown {
        Some(s) => {
            let p = placed(s, v, cells);
            place_all(out, &p);
            mark(out, s, v, cells, hits, at);
            assert(out@ =~= head + (placing_all(bands::placed_of(*s, *v, cells)) + marks_of(
                *s,
                *v,
                cells,
                hits@,
                at as int,
            )));
        },
        None => {
            assert(out@ =~= head + Seq::<char>::empty());
        },
    }
    let line = status_text(name, index, count, failure, note, document(shown), v);
    status_line(out, cells, line.as_str());
    assert(out@ =~= old(out)@ + screen(*shown, *v, cells, line@, hits@, at as int));
}

proof fn lemma_bare_placing(p: Seq<Placed>)
    ensures
        kitty::bare(placing_all(p)),
    decreases p.len(),
{
    if p.len() == 0 {
        kitty::lemma_plain_is_bare(placing_all(p));
    } else {
        lemma_bare_placing(p.drop_last());
        let row = p.last().row as nat + 1;
        let put = "\x1b["@ + text::dec(row) + ";1H"@;
        reveal_strlit("\x1b[");
        reveal_strlit(";1H");
        kitty::lemma_dec_is_plain(row);
        kitty::lemma_control_is_bare(put);
        kitty::law_placing_carries_nothing(p.last().id, p.last().p);
        kitty::lemma_bare_joins(placing_all(p.drop_last()), put);
        kitty::lemma_bare_joins(
            placing_all(p.drop_last()) + put,
            kitty::placing(p.last().id, p.last().p),
        );
        assert(placing_all(p) =~= placing_all(p.drop_last()) + put + kitty::placing(
            p.last().id,
            p.last().p,
        ));
    }
}

proof fn lemma_bare_underline(row: int, col: int, width: int, bright: bool)
    ensures
        kitty::bare(underline(row, col, width, bright)),
{
    let (r, c) = ((row + 1) as nat, (col + 1) as nat);
    let colour = mark_colour(bright);
    let gap = Seq::new(width as nat, |i: int| ' ');
    reveal_strlit("255;95;175");
    reveal_strlit("143;63;111");
    reveal_strlit("\x1b[");
    reveal_strlit(";");
    reveal_strlit("H");
    reveal_strlit("m");
    reveal_strlit("H\x1b[4m\x1b[58;2;");
    reveal_strlit("\x1b[4m");
    reveal_strlit("\x1b[58;2;");
    reveal_strlit("m\x1b[38;2;");
    reveal_strlit("\x1b[38;2;");
    reveal_strlit("\x1b[0m");
    kitty::lemma_dec_is_plain(r);
    kitty::lemma_dec_is_plain(c);
    let put = "\x1b["@ + text::dec(r) + ";"@ + text::dec(c) + "H"@;
    let under = "\x1b[4m"@;
    let tint = "\x1b[58;2;"@ + colour + "m"@;
    let fall = "\x1b[38;2;"@ + colour + "m"@ + gap;
    let done = "\x1b[0m"@;
    kitty::lemma_control_is_bare(put);
    kitty::lemma_control_is_bare(under);
    kitty::lemma_control_is_bare(tint);
    kitty::lemma_control_is_bare(fall);
    kitty::lemma_control_is_bare(done);
    kitty::lemma_bare_joins(put, under);
    kitty::lemma_bare_joins(put + under, tint);
    kitty::lemma_bare_joins(put + under + tint, fall);
    kitty::lemma_bare_joins(put + under + tint + fall, done);
    assert("H\x1b[4m\x1b[58;2;"@ =~= "H"@ + under + "\x1b[58;2;"@);
    assert("m\x1b[38;2;"@ =~= "m"@ + "\x1b[38;2;"@);
    assert(underline(row, col, width, bright) =~= put + under + tint + fall + done);
}

proof fn lemma_bare_marks(s: Shown, ix: Index, p: Placement, hits: Seq<Hit>, at: int)
    ensures
        kitty::bare(marks(s, ix, p, hits, at)),
    decreases hits.len(),
{
    kitty::lemma_plain_is_bare(seq![]);
    if hits.len() > 0 {
        let hit = hits.last();
        lemma_bare_marks(s, ix, p, hits.drop_last(), at);
        if hit.line < ix.lines@.len() {
            if let Some((row, col, width)) = mark_place(
                s,
                ix,
                p,
                ix.lines@[hit.line as int],
                hit,
            ) {
                lemma_bare_underline(row, col, width, hits.len() - 1 == at);
            }
        }
        kitty::lemma_bare_joins(
            marks(s, ix, p, hits.drop_last(), at),
            marked(s, ix, p, hit, hits.len() - 1 == at),
        );
    }
}

/// To draw a screen, wherever it was scrolled to, sends none of the page's pixels: the terminal has
/// them, and is told which to show.
pub proof fn law_scrolling_sends_no_pixels(
    shown: Option<Shown>,
    v: Aim,
    cells: (u32, u32),
    line: Seq<char>,
    hits: Seq<Hit>,
    at: int,
)
    ensures
        kitty::carried(screen(shown, v, cells, line, hits, at)) == Seq::<char>::empty(),
{
    reveal_strlit("\x1b[H\x1b[J");
    reveal_strlit("\x1b[H");
    reveal_strlit("\x1b[J");
    reveal_strlit("\x1b[");
    reveal_strlit(";1H\x1b[K");
    reveal_strlit(";1H");
    reveal_strlit("\x1b[K");
    let home = "\x1b[H\x1b[J"@;
    assert(home =~= "\x1b[H"@ + "\x1b[J"@);
    kitty::lemma_control_is_bare("\x1b[H"@);
    kitty::lemma_control_is_bare("\x1b[J"@);
    kitty::lemma_bare_joins("\x1b[H"@, "\x1b[J"@);
    kitty::lemma_plain_is_bare(seq![]);
    let middle = match shown {
        Some(s) => placing_all(bands::placed_of(s, v, cells)) + marks_of(s, v, cells, hits, at),
        None => seq![],
    };
    if let Some(s) = shown {
        lemma_bare_placing(bands::placed_of(s, v, cells));
        if let Some(ix) = s.index {
            lemma_bare_marks(s, ix, view::placement_of(s, v, cells), hits, at);
        }
        kitty::lemma_bare_joins(
            placing_all(bands::placed_of(s, v, cells)),
            marks_of(s, v, cells, hits, at),
        );
    }
    let put = "\x1b["@ + text::dec(cells.1 as nat) + ";1H"@;
    let text = "\x1b[K"@ + first(visible(line), cells.0 as int);
    kitty::lemma_dec_is_plain(cells.1 as nat);
    law_what_is_visible_is_no_control(line);
    kitty::lemma_control_is_bare(put);
    kitty::lemma_control_is_bare(text);
    kitty::lemma_bare_joins(put, text);
    assert(";1H\x1b[K"@ =~= ";1H"@ + "\x1b[K"@);
    assert(status_of(cells, line) =~= put + text);
    kitty::lemma_bare_joins(home, middle);
    kitty::lemma_bare_joins(home + middle, status_of(cells, line));
    kitty::lemma_bare(screen(shown, v, cells, line, hits, at));
}

/// Nothing but escapes and spaces is ever written over the page: whatever a line of it says, the same
/// place is underlined the same.
pub proof fn law_marks_do_not_depend_on_the_words(
    s: Shown,
    ix: Index,
    p: Placement,
    a: Line,
    b: Line,
    hit: Hit,
)
    requires
        a.y == b.y,
        a.x == b.x,
        a.h == b.h,
        a.advance == b.advance,
    ensures
        mark_place(s, ix, p, a, hit) == mark_place(s, ix, p, b, hit),
{
}

/// A hit is underlined where it stands on the screen, to the nearest cell: in the last row that its line
/// takes, from the column it begins in and as far as it goes, within what is shown. One that lies outside
/// of that is not.
pub proof fn law_a_hit_is_underlined_where_it_stands(
    s: Shown,
    ix: Index,
    p: Placement,
    line: Line,
    hit: Hit,
)
    requires
        s.wf(),
        line.y + line.h <= u32::MAX,
        line.h >= 1,
        line.x + hit.col * line.advance <= usize::MAX,
        hit.cols * line.advance <= usize::MAX,
    ensures
        ({
            let down = (line.y + line.h - 1) * (ix.row * s.den) - p.src_y * s.num;
            let across = (line.x + hit.col * line.advance) * (ix.column * s.den) - p.src_x * (204_800
                * s.num);
            let long = (hit.cols * line.advance) * ix.column;
            let (high, wide) = (s.cell.h * s.den, 204_800 * (s.cell.w * s.den));
            match mark_place(s, ix, p, line, hit) {
                Some((row, col, n)) => {
                    &&& 0 <= row < p.rows && 0 <= col < p.cols && 1 <= n <= p.cols - col
                    &&& down >= 0 && across >= 0
                    &&& 2 * (row * high - down) <= high && 2 * (down - row * high) <= high
                    &&& 2 * (col * wide - across) <= wide && 2 * (across - col * wide) <= wide
                    &&& n < p.cols - col && n > 1 ==> 2 * (n * (204_800 * s.cell.w) - long) <= 204_800
                        * s.cell.w && 2 * (long - n * (204_800 * s.cell.w)) <= 204_800 * s.cell.w
                },
                None => down < 0 || across < 0 || 2 * down >= (2 * p.rows - 1) * high || 2 * across
                    >= (2 * p.cols - 1) * wide,
            }
        }),
{
    let a = hit.col * line.advance;
    let c = hit.cols * line.advance;
    assert(0 <= a && 0 <= c) by (nonlinear_arith)
        requires
            a == hit.col * line.advance,
            c == hit.cols * line.advance,
            0 <= hit.col,
            0 <= hit.cols,
            0 <= line.advance,
    ;
    let down = (line.y + line.h - 1) * (ix.row * s.den) - p.src_y * s.num;
    let across = (line.x + a) * (ix.column * s.den) - p.src_x * (204_800 * s.num);
    let long = c * ix.column;
    let (high, wide) = (s.cell.h * s.den, 204_800 * (s.cell.w * s.den));
    assert(high > 0 && wide > 0) by (nonlinear_arith)
        requires
            high == s.cell.h * s.den,
            wide == 204_800 * (s.cell.w * s.den),
            0 < s.cell.h,
            0 < s.cell.w,
            0 < s.den,
    ;
    lemma_nearest_half(down, high);
    lemma_nearest_half(across, wide);
    lemma_nearest_half(long, 204_800 * s.cell.w);
    let (row, col) = (geometry::nearest(down, high), geometry::nearest(across, wide));
    if row >= p.rows {
        assert((2 * p.rows - 1) * high <= 2 * (row * high) - high) by (nonlinear_arith)
            requires
                p.rows <= row,
                high > 0,
        ;
    }
    if col >= p.cols {
        assert((2 * p.cols - 1) * wide <= 2 * (col * wide) - wide) by (nonlinear_arith)
            requires
                p.cols <= col,
                wide > 0,
        ;
    }
    if down >= 0 {
        geometry::lemma_quotient(2 * down + high, 2 * high);
    }
    if across >= 0 {
        geometry::lemma_quotient(2 * across + wide, 2 * wide);
    }
}

proof fn lemma_nearest_half(a: int, b: int)
    requires
        0 < b,
    ensures
        2 * (geometry::nearest(a, b) * b - a) <= b,
        2 * (a - geometry::nearest(a, b) * b) <= b,
{
    let q = geometry::nearest(a, b);
    geometry::lemma_quotient(2 * a + b, 2 * b);
    assert(2 * (q * b - a) <= b && 2 * (a - q * b) <= b) by (nonlinear_arith)
        requires
            q * (2 * b) <= 2 * a + b < (q + 1) * (2 * b),
    ;
}

/// What is underlined is spaces of the mark's colour with a line under them, from the place that was
/// asked for on; the hit you are on is of a brighter colour than the others.
pub proof fn law_an_underline_is_coloured_spaces(row: nat, col: nat, n: nat, bright: bool)
    ensures
        ({
            let colour = if bright {
                "255;95;175"@
            } else {
                "143;63;111"@
            };
            underline(row as int, col as int, n as int, bright) == "\x1b["@ + text::dec(row + 1) + ";"@
                + text::dec(col + 1) + "H\x1b[4m\x1b[58;2;"@ + colour + "m\x1b[38;2;"@ + colour + "m"@
                + Seq::new(n, |i: int| ' ') + "\x1b[0m"@
        }),
{
}

/// Every hit is marked once, the one you are on as that, and no other.
pub proof fn law_every_hit_is_marked(
    s: Shown,
    ix: Index,
    p: Placement,
    hits: Seq<Hit>,
    hit: Hit,
    at: int,
)
    ensures
        marks(s, ix, p, seq![], at).len() == 0,
        marks(s, ix, p, hits.push(hit), at) == marks(s, ix, p, hits, at) + marked(
            s,
            ix,
            p,
            hit,
            hits.len() == at,
        ),
        hit.line < ix.lines@.len() ==> marked(s, ix, p, hit, true) == (match mark_place(
            s,
            ix,
            p,
            ix.lines@[hit.line as int],
            hit,
        ) {
            Some((row, col, n)) => underline(row, col, n, true),
            None => seq![],
        }),
{
    assert(hits.push(hit).drop_last() =~= hits);
}

/// The status line says which file it is, and then what went wrong, or what there is to say, or where the
/// file stands among the others and which keys there are; of a picture also how close it is seen.
pub proof fn law_the_status_line_says_what_matters(
    name: Seq<char>,
    index: nat,
    count: nat,
    e: Seq<char>,
    note: Option<Seq<char>>,
    document: bool,
    percent: nat,
)
    ensures
        status(name, index, count, Some(e), note, document, percent) == name + "  "@ + e,
        note matches Some(n) ==> status(name, index, count, None, note, document, percent) == name
            + "  "@ + n,
        status(name, index, count, None, None, true, percent) == name + "  "@ + ("["@ + text::dec(
            index + 1,
        ) + "/"@ + text::dec(count) + "]"@)
            + "  hjkl pan  gG ends  / find  nN match  }{ head  tab file  q quit"@,
        status(name, index, count, None, None, false, percent) == name + "  "@ + ("["@ + text::dec(
            index + 1,
        ) + "/"@ + text::dec(count) + "]"@) + "  "@ + text::dec(percent)
            + "%  hjkl pan  +- zoom  0 reset  tab file  q quit"@,
{
}

/// How close a picture is seen is said in percent, to the nearest.
pub proof fn law_the_zoom_is_said_in_percent(v: Aim)
    requires
        v.wf(),
    ensures
        2 * (percent_of(v) * v.zoom.den - 100 * v.zoom.num) <= v.zoom.den,
        2 * (100 * v.zoom.num - percent_of(v) * v.zoom.den) <= v.zoom.den,
        v.zoom.num == v.zoom.den ==> percent_of(v) == 100,
{
    let (n, d) = (100 * v.zoom.num, v.zoom.den as int);
    lemma_nearest_half(n, d);
    geometry::lemma_quotient(2 * n + d, 2 * d);
    if v.zoom.num == v.zoom.den {
        let q = geometry::nearest(n, d);
        assert(q == 100) by (nonlinear_arith)
            requires
                2 * (q * d - n) <= d,
                2 * (n - q * d) <= d,
                n == 100 * d,
                0 < d,
                q * (2 * d) <= 2 * n + d < (q + 1) * (2 * d),
        ;
    }
}

/// A screen is drawn from the top: what was written is cleared, the image placed, the hits marked and
/// the status line written on the last row, cut to the width. Each part of the image is placed where it
/// begins.
pub proof fn law_a_screen_is_drawn_from_the_top(
    s: Shown,
    v: Aim,
    cells: (u32, u32),
    line: Seq<char>,
    hits: Seq<Hit>,
    at: int,
    p: Seq<Placed>,
    one: Placed,
)
    ensures
        screen(Some(s), v, cells, line, hits, at) == "\x1b[H\x1b[J"@ + (placing_all(
            bands::placed_of(s, v, cells),
        ) + marks_of(s, v, cells, hits, at)) + status_of(cells, line),
        placing_all(p.push(one)) == placing_all(p) + "\x1b["@ + text::dec(one.row as nat + 1) + ";1H"@
            + kitty::placing(one.id, one.p),
        visible(line).len() <= cells.0 ==> status_of(cells, line) == "\x1b["@ + text::dec(
            cells.1 as nat,
        ) + ";1H\x1b[K"@ + visible(line),
        visible(line).len() > cells.0 ==> status_of(cells, line) == "\x1b["@ + text::dec(
            cells.1 as nat,
        ) + ";1H\x1b[K"@ + visible(line).take(cells.0 as int),
{
    assert(p.push(one).drop_last() =~= p);
}

/// While a file is awaited its name is said, where it stands among the others, and how many seconds it has
/// taken to the nearest tenth.
pub proof fn law_a_wait_is_said_in_seconds(
    name: Seq<char>,
    index: nat,
    count: nat,
    elapsed: int,
    secs: nat,
    tenth: nat,
)
    requires
        0 <= elapsed,
        tenth < 10,
        1000 * secs + 100 * tenth - 50 <= elapsed < 1000 * secs + 100 * tenth + 50,
    ensures
        waiting(name, index, count, elapsed).skip(1) == " rendering "@ + name + "  "@ + ("["@ + text::dec(
            index + 1,
        ) + "/"@ + text::dec(count) + "]"@) + "  "@ + text::dec(secs) + "."@ + text::dec(tenth)
            + "s  q quits"@,
{
    let tenths = (elapsed + 50) / 100;
    assert(tenths == 10 * secs + tenth);
    assert(tenths / 10 == secs && tenths % 10 == tenth);
    assert(waiting(name, index, count, elapsed).skip(1) =~= " rendering "@ + name + "  "@
        + place_among(index, count) + "  "@ + text::dec(secs) + "."@ + text::dec(tenth)
        + "s  q quits"@);
}

/// The spinner goes on with every tick, and shows no frame twice in a cycle.
pub proof fn law_the_spinner_turns(elapsed: int, ticks: int)
    requires
        0 <= elapsed,
        0 < ticks < 10,
    ensures
        frame_glyph((elapsed + ticks * SPIN_TICK) / SPIN_TICK as int % 10) != frame_glyph(
            elapsed / SPIN_TICK as int % 10,
        ),
        elapsed < SPIN_TICK ==> frame_glyph(elapsed / SPIN_TICK as int % 10) == '\u{280b}',
{
    let n = elapsed / SPIN_TICK as int;
    assert((elapsed + ticks * SPIN_TICK) / SPIN_TICK as int == n + ticks);
    assert((n + ticks) % 10 != n % 10);
}

} // verus!
