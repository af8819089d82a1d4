//! Stepping through the hits of a search and through headings.

use vstd::prelude::*;

use crate::source::index::{Heading, Hit, Index};
use crate::text;
use crate::text::{chars_of, push_chars, push_dec, trim_range};
use crate::tui::view;
use crate::tui::view::{row_top, scroll_to, seen, window, Aim, Shown};

verus! {

/// Whether every hit lies in a line there is.
pub open spec fn in_lines(ix: Index, hits: Seq<Hit>) -> bool {
    forall|k: int| 0 <= k < hits.len() ==> (#[trigger] hits[k]).line < ix.lines@.len()
}

/// Where the line of a hit begins, in units.
pub open spec fn hit_top(s: Shown, ix: Index, h: Hit) -> int {
    view::row_at(s, ix, ix.lines@[h.line as int].y as int)
}

/// The first hit from `k` on whose line begins below `top`, or the first of all.
pub open spec fn first_below(s: Shown, ix: Index, hits: Seq<Hit>, top: int, k: int) -> int
    decreases hits.len() - k,
{
    if k >= hits.len() {
        0
    } else if hit_top(s, ix, hits[k]) > top {
        k
    } else {
        first_below(s, ix, hits, top, k + 1)
    }
}

/// The last hit before `k` whose line begins above `top`, or the last of all.
pub open spec fn last_above(s: Shown, ix: Index, hits: Seq<Hit>, top: int, k: int) -> int
    decreases k,
{
    if k <= 0 {
        hits.len() - 1
    } else if hit_top(s, ix, hits[k - 1]) < top {
        k - 1
    } else {
        last_above(s, ix, hits, top, k - 1)
    }
}

/// The hit a fresh search lands on, looking `dir` from where the window is.
pub open spec fn first_of(s: Shown, v: Aim, hits: Seq<Hit>, dir: int, cells: (u32, u32)) -> int {
    match s.index {
        None => 0,
        Some(ix) => {
            let top = view::top_of(s, v, cells);
            if hits.len() == 0 {
                0
            } else if dir > 0 {
                first_below(s, ix, hits, top, 0)
            } else {
                last_above(s, ix, hits, top, hits.len() as int)
            }
        },
    }
}

/// The hit a fresh search lands on, looking `dir` from where the window is.
pub fn first_hit(s: &Shown, v: &Aim, hits: &[Hit], dir: i32, cells: (u32, u32)) -> (r: usize)
    requires
        s.wf(),
        v.wf(),
        view::reported(cells),
        s.index matches Some(ix) ==> in_lines(ix, hits@),
    ensures
        r == first_of(*s, *v, hits@, dir as int, cells),
        hits@.len() > 0 ==> r < hits@.len(),
{
    let ix = match &s.index {
        None => {
            return 0;
        },
        Some(ix) => ix,
    };
    if hits.len() == 0 {
        return 0;
    }
    let (top, _) = window(s, v, cells);
    if dir > 0 {
        let mut k: usize = 0;
        while k < hits.len()
            invariant
                k <= hits@.len(),
                s.index == Some(*ix),
                in_lines(*ix, hits@),
                first_of(*s, *v, hits@, dir as int, cells) == first_below(
                    *s,
                    *ix,
                    hits@,
                    top as int,
                    k as int,
                ),
            decreases hits.len() - k,
        {
            let line = hits[k].line;
            assert(hits@[k as int].line < ix.lines@.len());
            if row_top(s, ix, ix.lines[line].y) > top {
                return k;
            }
            k += 1;
        }
        0
    } else {
        let mut k: usize = hits.len();
        while k > 0
            invariant
                k <= hits@.len(),
                s.index == Some(*ix),
                in_lines(*ix, hits@),
                first_of(*s, *v, hits@, dir as int, cells) == last_above(
                    *s,
                    *ix,
                    hits@,
                    top as int,
                    k as int,
                ),
            decreases k,
        {
            let line = hits[k - 1].line;
            assert(hits@[k - 1].line < ix.lines@.len());
            if row_top(s, ix, ix.lines[line].y) < top {
                return k - 1;
            }
            k -= 1;
        }
        hits.len() - 1
    }
}

/// A search forwards lands on the first hit below the top of the window, and one back on the last
/// above it, wherever there is one.
pub proof fn law_a_search_starts_where_the_reader_is(
    s: Shown,
    ix: Index,
    hits: Seq<Hit>,
    top: int,
    n: int,
)
    requires
        0 <= n < hits.len(),
    ensures
        hit_top(s, ix, hits[n]) > top ==> ({
            let k = first_below(s, ix, hits, top, 0);
            &&& 0 <= k <= n
            &&& hit_top(s, ix, hits[k]) > top
            &&& forall|j: int| 0 <= j < k ==> hit_top(s, ix, #[trigger] hits[j]) <= top
        }),
        hit_top(s, ix, hits[n]) < top ==> ({
            let k = last_above(s, ix, hits, top, hits.len() as int);
            &&& n <= k < hits.len()
            &&& hit_top(s, ix, hits[k]) < top
            &&& forall|j: int| k < j < hits.len() ==> hit_top(s, ix, #[trigger] hits[j]) >= top
        }),
{
    if hit_top(s, ix, hits[n]) > top {
        lemma_first_below(s, ix, hits, top, 0, n);
    }
    if hit_top(s, ix, hits[n]) < top {
        lemma_last_above(s, ix, hits, top, hits.len() as int, n);
    }
}

proof fn lemma_first_below(s: Shown, ix: Index, hits: Seq<Hit>, top: int, from: int, n: int)
    requires
        0 <= from <= n < hits.len(),
        hit_top(s, ix, hits[n]) > top,
    ensures
        ({
            let k = first_below(s, ix, hits, top, from);
            &&& from <= k <= n
            &&& hit_top(s, ix, hits[k]) > top
            &&& forall|j: int| from <= j < k ==> hit_top(s, ix, #[trigger] hits[j]) <= top
        }),
    decreases n - from,
{
    if hit_top(s, ix, hits[from]) <= top {
        lemma_first_below(s, ix, hits, top, from + 1, n);
    }
}

proof fn lemma_last_above(s: Shown, ix: Index, hits: Seq<Hit>, top: int, to: int, n: int)
    requires
        0 <= n < to <= hits.len(),
        hit_top(s, ix, hits[n]) < top,
    ensures
        ({
            let k = last_above(s, ix, hits, top, to);
            &&& n <= k < to
            &&& hit_top(s, ix, hits[k]) < top
            &&& forall|j: int| k < j < to ==> hit_top(s, ix, #[trigger] hits[j]) >= top
        }),
    decreases to,
{
    if hit_top(s, ix, hits[to - 1]) >= top {
        lemma_last_above(s, ix, hits, top, to - 1, n);
    }
}

/// What moving to hit `at` does to the view, and what the status line shows of it.
pub open spec fn stepped(
    v: Aim,
    shown: Option<Shown>,
    hits: Seq<Hit>,
    at: int,
    query: Seq<char>,
    cells: (u32, u32),
) -> (Aim, Seq<char>) {
    match shown {
        None => (v, "/"@ + query + "  nothing loaded"@),
        Some(s) => match s.index {
            None => (v, "/"@ + query + "  not a document"@),
            Some(ix) => if hits.len() == 0 {
                (v, "/"@ + query + "  no matches"@)
            } else {
                let line = ix.lines@[hits[at].line as int];
                (
                    view::scrolled(s, v, ix, line.y as int, cells),
                    "/"@ + query + "  "@ + text::dec((at + 1) as nat) + "/"@ + text::dec(
                        hits.len(),
                    ) + "  "@ + text::trim(line.text@),
                )
            },
        },
    }
}

fn push_trimmed(out: &mut String, t: &str)
    ensures
        final(out)@ == old(out)@ + text::trim(t@),
{
    let chars = chars_of(t);
    let (from, to) = trim_range(&chars, 0, chars.len());
    assert(chars@.subrange(0, chars@.len() as int) =~= chars@);
    push_chars(out, vstd::slice::slice_subrange(chars.as_slice(), from, to));
}

/// Move the view to hit `at`, and say what the status line should show.
pub fn step(
    v: &mut Aim,
    shown: &Option<Shown>,
    hits: &[Hit],
    at: usize,
    query: &str,
    cells: (u32, u32),
) -> (r: String)
    requires
        shown matches Some(s) ==> s.wf() && (s.index matches Some(ix) ==> in_lines(ix, hits@)),
        old(v).wf(),
        view::reported(cells),
        hits@.len() > 0 ==> at < hits@.len(),
    ensures
        (*final(v), r@) == stepped(*old(v), *shown, hits@, at as int, query@, cells),
        final(v).wf(),
{
    let mut out = String::new();
    out.push_str("/");
    out.push_str(query);
    out.push_str("  ");
    match shown {
        None => {
            out.push_str("nothing loaded");
            proof {
                reveal_strlit("  ");
                reveal_strlit("nothing loaded");
                reveal_strlit("  nothing loaded");
            }
        },
        Some(s) => match &s.index {
            None => {
                out.push_str("not a document");
                proof {
                    reveal_strlit("  ");
                    reveal_strlit("not a document");
                    reveal_strlit("  not a document");
                }
            },
            Some(ix) => {
                if hits.len() == 0 {
                    out.push_str("no matches");
                    proof {
                        reveal_strlit("  ");
                        reveal_strlit("no matches");
                        reveal_strlit("  no matches");
                    }
                } else {
                    let hit = hits[at];
                    assert(hits@[at as int].line < ix.lines@.len());
                    let line = &ix.lines[hit.line];
                    scroll_to(v, s, ix, line.y, cells);
                    push_dec(&mut out, at as u64 + 1);
                    out.push_str("/");
                    push_dec(&mut out, hits.len() as u64);
                    out.push_str("  ");
                    push_trimmed(&mut out, line.text.as_str());
                }
            },
        },
    }
    assert(out@ =~= stepped(*old(v), *shown, hits@, at as int, query@, cells).1);
    out
}

/// The first heading from `k` on that begins more than a pixel below `top`.
pub open spec fn heading_below(s: Shown, ix: Index, top: int, k: int) -> Option<int>
    decreases ix.outline@.len() - k,
{
    if k >= ix.outline@.len() {
        None
    } else if view::row_at(s, ix, ix.outline@[k].y as int) > top + s.unit() {
        Some(k)
    } else {
        heading_below(s, ix, top, k + 1)
    }
}

/// The last heading before `k` that begins more than a pixel above `top`.
pub open spec fn heading_above(s: Shown, ix: Index, top: int, k: int) -> Option<int>
    decreases k,
{
    if k <= 0 {
        None
    } else if view::row_at(s, ix, ix.outline@[k - 1].y as int) < top - s.unit() {
        Some(k - 1)
    } else {
        heading_above(s, ix, top, k - 1)
    }
}

/// The first heading from `k` on that stands below row `r`.
pub open spec fn heading_after(ix: Index, r: usize, k: int) -> Option<int>
    decreases ix.outline@.len() - k,
{
    if k >= ix.outline@.len() {
        None
    } else if ix.outline@[k].y > r {
        Some(k)
    } else {
        heading_after(ix, r, k + 1)
    }
}

/// The last heading before `k` that stands above row `r`.
pub open spec fn heading_before(ix: Index, r: usize, k: int) -> Option<int>
    decreases k,
{
    if k <= 0 {
        None
    } else if ix.outline@[k - 1].y < r {
        Some(k - 1)
    } else {
        heading_before(ix, r, k - 1)
    }
}

/// The row of the heading that the view was moved to, as long as it stays where that put it.
pub open spec fn standing(s: Shown, ix: Index, v: Aim, cells: (u32, u32)) -> Option<usize> {
    match v.heading {
        Some(r) => if view::scrolled(s, v, ix, r as int, cells).cy == v.cy {
            Some(r)
        } else {
            None
        },
        None => None,
    }
}

/// The next heading in `dir`: from the heading that the view was moved to, or else measured from the
/// top of the viewport rather than its centre.
//
// a jump leaves its heading a third of the way down, which is
// below the top, so from the top alone the next heading would
// be the same again
pub open spec fn next_heading(s: Shown, ix: Index, v: Aim, dir: int, cells: (u32, u32)) -> Option<
    int,
> {
    let top = v.cy - view::half_down(s, v.zoom, cells);
    match standing(s, ix, v, cells) {
        Some(r) => if dir > 0 {
            heading_after(ix, r, 0)
        } else {
            heading_before(ix, r, ix.outline@.len() as int)
        },
        None => if dir > 0 {
            heading_below(s, ix, top, 0)
        } else {
            heading_above(s, ix, top, ix.outline@.len() as int)
        },
    }
}

/// A view moved to the heading in row `r`.
pub open spec fn moved_to(s: Shown, ix: Index, v: Aim, r: usize, cells: (u32, u32)) -> Aim {
    Aim { heading: Some(r), ..view::scrolled(s, v, ix, r as int, cells) }
}

/// From a heading that was stepped to, the next step goes on: forwards to the first heading below it,
/// back to the last above it, wherever there is one.
pub proof fn law_stepping_goes_on(s: Shown, ix: Index, v: Aim, r: usize, cells: (u32, u32))
    ensures
        ({
            let at = moved_to(s, ix, v, r, cells);
            let n = ix.outline@.len();
            &&& match next_heading(s, ix, at, 1, cells) {
                Some(k) => {
                    &&& 0 <= k < n
                    &&& ix.outline@[k].y > r
                    &&& forall|j: int| 0 <= j < k ==> (#[trigger] ix.outline@[j]).y <= r
                },
                None => forall|j: int| 0 <= j < n ==> (#[trigger] ix.outline@[j]).y <= r,
            }
            &&& match next_heading(s, ix, at, -1, cells) {
                Some(k) => {
                    &&& 0 <= k < n
                    &&& ix.outline@[k].y < r
                    &&& forall|j: int| k < j < n ==> (#[trigger] ix.outline@[j]).y >= r
                },
                None => forall|j: int| 0 <= j < n ==> (#[trigger] ix.outline@[j]).y >= r,
            }
        }),
{
    let at = moved_to(s, ix, v, r, cells);
    assert(view::scrolled(s, at, ix, r as int, cells).cy == at.cy);
    lemma_heading_after(ix, r, 0);
    lemma_heading_before(ix, r, ix.outline@.len() as int);
}

proof fn lemma_heading_after(ix: Index, r: usize, from: int)
    requires
        0 <= from,
    ensures
        match heading_after(ix, r, from) {
            Some(k) => {
                &&& from <= k < ix.outline@.len()
                &&& ix.outline@[k].y > r
                &&& forall|j: int| from <= j < k ==> (#[trigger] ix.outline@[j]).y <= r
            },
            None => forall|j: int|
                from <= j < ix.outline@.len() ==> (#[trigger] ix.outline@[j]).y <= r,
        },
    decreases ix.outline@.len() - from,
{
    if from < ix.outline@.len() && ix.outline@[from].y <= r {
        lemma_heading_after(ix, r, from + 1);
    }
}

proof fn lemma_heading_before(ix: Index, r: usize, to: int)
    requires
        0 <= to <= ix.outline@.len(),
    ensures
        match heading_before(ix, r, to) {
            Some(k) => {
                &&& 0 <= k < to
                &&& ix.outline@[k].y < r
                &&& forall|j: int| k < j < to ==> (#[trigger] ix.outline@[j]).y >= r
            },
            None => forall|j: int| 0 <= j < to ==> (#[trigger] ix.outline@[j]).y >= r,
        },
    decreases to,
{
    if to > 0 && ix.outline@[to - 1].y >= r {
        lemma_heading_before(ix, r, to - 1);
    }
}

/// A heading's mark, a `#` to a level.
pub open spec fn hashes(level: nat) -> Seq<char> {
    Seq::new(level, |i: int| '#')
}

/// What moving to the next heading in `dir` does to the view, and what the status line shows of it.
pub open spec fn headed(v: Aim, shown: Option<Shown>, dir: int, cells: (u32, u32)) -> (
    Aim,
    Seq<char>,
) {
    match shown {
        None => (v, "nothing loaded"@),
        Some(s) => match s.index {
            None => (v, "not a document"@),
            Some(ix) => match next_heading(s, ix, v, dir, cells) {
                Some(k) => {
                    let h = ix.outline@[k];
                    (
                        moved_to(s, ix, v, h.y, cells),
                        hashes(h.level as nat) + " "@ + text::trim(h.text@),
                    )
                },
                None => (v, "no more headings"@),
            },
        },
    }
}

fn from_heading(ix: &Index, r: usize, dir: i32) -> (found: Option<usize>)
    ensures
        match found {
            Some(k) => k < ix.outline@.len() && (if dir > 0 {
                heading_after(*ix, r, 0)
            } else {
                heading_before(*ix, r, ix.outline@.len() as int)
            }) == Some(k as int),
            None => (if dir > 0 {
                heading_after(*ix, r, 0)
            } else {
                heading_before(*ix, r, ix.outline@.len() as int)
            }) is None,
        },
{
    if dir > 0 {
        let mut k: usize = 0;
        while k < ix.outline.len()
            invariant
                k <= ix.outline@.len(),
                dir > 0,
                heading_after(*ix, r, 0) == heading_after(*ix, r, k as int),
            decreases ix.outline.len() - k,
        {
            if ix.outline[k].y > r {
                return Some(k);
            }
            k += 1;
        }
        None
    } else {
        let mut k: usize = ix.outline.len();
        while k > 0
            invariant
                k <= ix.outline@.len(),
                dir <= 0,
                heading_before(*ix, r, ix.outline@.len() as int) == heading_before(
                    *ix,
                    r,
                    k as int,
                ),
            decreases k,
        {
            if ix.outline[k - 1].y < r {
                return Some(k - 1);
            }
            k -= 1;
        }
        None
    }
}

fn find_heading(s: &Shown, ix: &Index, v: &Aim, dir: i32, cells: (u32, u32)) -> (r: Option<usize>)
    requires
        s.wf(),
        v.wf(),
        view::reported(cells),
    ensures
        match r {
            Some(k) => next_heading(*s, *ix, *v, dir as int, cells) == Some(k as int) && k
                < ix.outline@.len(),
            None => next_heading(*s, *ix, *v, dir as int, cells) is None,
        },
{
    if let Some(r) = v.heading {
        let mut landed = *v;
        scroll_to(&mut landed, s, ix, r, cells);
        if landed.cy == v.cy {
            return from_heading(ix, r, dir);
        }
    }
    let (_, high) = seen(s, v.zoom, cells);
    proof {
        let n = 15 * s.num;
        assert(0 <= high * n <= 0xffff_ffff * (15 * 0xffff_ffff)) by (nonlinear_arith)
            requires
                0 <= high <= 0xffff_ffff,
                0 <= n <= 15 * 0xffff_ffff,
        ;
    }
    let top: i128 = v.cy - high as i128 * (15 * s.num as i128);
    let unit: i128 = 30 * s.num as i128;
    if dir > 0 {
        let mut k: usize = 0;
        while k < ix.outline.len()
            invariant
                k <= ix.outline@.len(),
                unit == s.unit(),
                unit <= 30 * 0xffff_ffff,
                -(2 * view::FAR) <= top <= 2 * view::FAR,
                next_heading(*s, *ix, *v, dir as int, cells) == heading_below(
                    *s,
                    *ix,
                    top as int,
                    k as int,
                ),
            decreases ix.outline.len() - k,
        {
            if row_top(s, ix, ix.outline[k].y) > top + unit {
                return Some(k);
            }
            k += 1;
        }
        None
    } else {
        let mut k: usize = ix.outline.len();
        while k > 0
            invariant
                k <= ix.outline@.len(),
                unit == s.unit(),
                unit <= 30 * 0xffff_ffff,
                -(2 * view::FAR) <= top <= 2 * view::FAR,
                next_heading(*s, *ix, *v, dir as int, cells) == heading_above(
                    *s,
                    *ix,
                    top as int,
                    k as int,
                ),
            decreases k,
        {
            if row_top(s, ix, ix.outline[k - 1].y) < top - unit {
                return Some(k - 1);
            }
            k -= 1;
        }
        None
    }
}

/// Move the view to the next heading in `dir`, and say what to show.
pub fn heading(v: &mut Aim, shown: &Option<Shown>, dir: i32, cells: (u32, u32)) -> (r: String)
    requires
        shown matches Some(s) ==> s.wf(),
        old(v).wf(),
        view::reported(cells),
    ensures
        (*final(v), r@) == headed(*old(v), *shown, dir as int, cells),
        final(v).wf(),
{
    let mut out = String::new();
    match shown {
        None => {
            out.push_str("nothing loaded");
        },
        Some(s) => match &s.index {
            None => {
                out.push_str("not a document");
            },
            Some(ix) => match find_heading(s, ix, v, dir, cells) {
                Some(k) => {
                    let h: &Heading = &ix.outline[k];
                    scroll_to(v, s, ix, h.y, cells);
                    v.heading = Some(h.y);
                    let mut i: u8 = 0;
                    while i < h.level
                        invariant
                            i <= h.level,
                            out@ =~= hashes(i as nat),
                        decreases h.level - i,
                    {
                        out.push('#');
                        i += 1;
                    }
                    out.push_str(" ");
                    push_trimmed(&mut out, h.text.as_str());
                },
                None => {
                    out.push_str("no more headings");
                },
            },
        },
    }
    assert(out@ =~= headed(*old(v), *shown, dir as int, cells).1);
    out
}

/// A fresh search that runs forwards lands on the first hit below the top of the window, and on the
/// first of all where there is none below; one that runs back lands on the last above it, and on the
/// last of all where there is none above.
pub proof fn law_a_search_runs_the_way_it_was_asked(
    s: Shown,
    ix: Index,
    v: Aim,
    hits: Seq<Hit>,
    dir: int,
    cells: (u32, u32),
)
    requires
        s.index == Some(ix),
        hits.len() > 0,
    ensures
        ({
            let top = view::top_of(s, v, cells);
            let k = first_of(s, v, hits, dir, cells);
            let n = hits.len() as int;
            &&& 0 <= k < n
            &&& dir > 0 ==> (hit_top(s, ix, hits[k]) > top && forall|j: int|
                0 <= j < k ==> hit_top(s, ix, #[trigger] hits[j]) <= top) || (k == 0 && forall|j: int|
                0 <= j < n ==> hit_top(s, ix, #[trigger] hits[j]) <= top)
            &&& dir <= 0 ==> (hit_top(s, ix, hits[k]) < top && forall|j: int|
                k < j < n ==> hit_top(s, ix, #[trigger] hits[j]) >= top) || (k == n - 1 && forall|j: int|
                0 <= j < n ==> hit_top(s, ix, #[trigger] hits[j]) >= top)
        }),
{
    let top = view::top_of(s, v, cells);
    lemma_none_below(s, ix, hits, top, 0);
    lemma_none_above(s, ix, hits, top, hits.len() as int);
}

proof fn lemma_none_below(s: Shown, ix: Index, hits: Seq<Hit>, top: int, from: int)
    requires
        0 <= from <= hits.len(),
    ensures
        ({
            let k = first_below(s, ix, hits, top, from);
            ||| from <= k < hits.len() && hit_top(s, ix, hits[k]) > top && forall|j: int|
                from <= j < k ==> hit_top(s, ix, #[trigger] hits[j]) <= top
            ||| k == 0 && forall|j: int|
                from <= j < hits.len() ==> hit_top(s, ix, #[trigger] hits[j]) <= top
        }),
    decreases hits.len() - from,
{
    if from < hits.len() && hit_top(s, ix, hits[from]) <= top {
        lemma_none_below(s, ix, hits, top, from + 1);
    }
}

proof fn lemma_none_above(s: Shown, ix: Index, hits: Seq<Hit>, top: int, to: int)
    requires
        0 <= to <= hits.len(),
    ensures
        ({
            let k = last_above(s, ix, hits, top, to);
            ||| 0 <= k < to && hit_top(s, ix, hits[k]) < top && forall|j: int|
                k < j < to ==> hit_top(s, ix, #[trigger] hits[j]) >= top
            ||| k == hits.len() - 1 && forall|j: int|
                0 <= j < to ==> hit_top(s, ix, #[trigger] hits[j]) >= top
        }),
    decreases to,
{
    if to > 0 && hit_top(s, ix, hits[to - 1]) >= top {
        lemma_none_above(s, ix, hits, top, to - 1);
    }
}

/// A step goes to the line of the hit it is on, and says which it is of how many and what the line says.
/// Without a page, or without a hit, it goes nowhere.
pub proof fn law_a_step_goes_to_its_hit(
    v: Aim,
    s: Shown,
    ix: Index,
    hits: Seq<Hit>,
    at: int,
    query: Seq<char>,
    cells: (u32, u32),
)
    requires
        s.index == Some(ix),
        0 <= at < hits.len(),
    ensures
        ({
            let line = ix.lines@[hits[at].line as int];
            let (aim, note) = stepped(v, Some(s), hits, at, query, cells);
            &&& aim == view::scrolled(s, v, ix, line.y as int, cells)
            &&& note == "/"@ + query + "  "@ + text::dec((at + 1) as nat) + "/"@ + text::dec(hits.len())
                + "  "@ + text::trim(line.text@)
            &&& stepped(v, Some(s), seq![], at, query, cells).0 == v
            &&& stepped(v, None, hits, at, query, cells).0 == v
        }),
{
}

/// From anywhere but a heading that was stepped to, a step forwards goes to the first heading more than
/// a pixel below the top of the window, and a step back to the last more than a pixel above it. It says
/// the heading, with a mark to each of its levels.
pub proof fn law_a_heading_is_stepped_to_from_the_top(
    v: Aim,
    s: Shown,
    ix: Index,
    dir: int,
    cells: (u32, u32),
)
    requires
        s.index == Some(ix),
        v.heading matches Some(r) ==> view::scrolled(s, v, ix, r as int, cells).cy != v.cy,
    ensures
        ({
            let top = v.cy - view::half_down(s, v.zoom, cells);
            let n = ix.outline@.len() as int;
            let at = |k: int| view::row_at(s, ix, ix.outline@[k].y as int);
            let (aim, note) = headed(v, Some(s), dir, cells);
            match next_heading(s, ix, v, dir, cells) {
                Some(k) => {
                    &&& 0 <= k < n
                    &&& dir > 0 ==> at(k) > top + 30 * s.num && forall|j: int|
                        0 <= j < k ==> #[trigger] at(j) <= top + 30 * s.num
                    &&& dir <= 0 ==> at(k) < top - 30 * s.num && forall|j: int|
                        k < j < n ==> #[trigger] at(j) >= top - 30 * s.num
                    &&& aim.cy == view::scrolled(s, v, ix, ix.outline@[k].y as int, cells).cy
                    &&& aim.heading == Some(ix.outline@[k].y)
                    &&& note.len() >= ix.outline@[k].level + 1
                    &&& forall|j: int| 0 <= j < ix.outline@[k].level ==> note[j] == '#'
                    &&& note.skip(ix.outline@[k].level as int) == " "@ + text::trim(
                        ix.outline@[k].text@,
                    )
                },
                None => {
                    &&& dir > 0 ==> forall|j: int| 0 <= j < n ==> #[trigger] at(j) <= top + 30 * s.num
                    &&& dir <= 0 ==> forall|j: int| 0 <= j < n ==> #[trigger] at(j) >= top - 30 * s.num
                    &&& aim == v
                },
            }
        }),
{
    let top = v.cy - view::half_down(s, v.zoom, cells);
    lemma_heading_below(s, ix, top, 0);
    lemma_heading_above(s, ix, top, ix.outline@.len() as int);
    reveal_strlit(" ");
    if let Some(k) = next_heading(s, ix, v, dir, cells) {
        let h = ix.outline@[k];
        let note = headed(v, Some(s), dir, cells).1;
        assert(note.skip(h.level as int) =~= " "@ + text::trim(h.text@));
    }
}

proof fn lemma_heading_below(s: Shown, ix: Index, top: int, from: int)
    requires
        0 <= from <= ix.outline@.len(),
    ensures
        ({
            let at = |k: int| view::row_at(s, ix, ix.outline@[k].y as int);
            match heading_below(s, ix, top, from) {
                Some(k) => from <= k < ix.outline@.len() && at(k) > top + s.unit() && forall|j: int|
                    from <= j < k ==> #[trigger] at(j) <= top + s.unit(),
                None => forall|j: int|
                    from <= j < ix.outline@.len() ==> #[trigger] at(j) <= top + s.unit(),
            }
        }),
    decreases ix.outline@.len() - from,
{
    if from < ix.outline@.len() && view::row_at(s, ix, ix.outline@[from].y as int) <= top + s.unit() {
        lemma_heading_below(s, ix, top, from + 1);
    }
}

proof fn lemma_heading_above(s: Shown, ix: Index, top: int, to: int)
    requires
        0 <= to <= ix.outline@.len(),
    ensures
        ({
            let at = |k: int| view::row_at(s, ix, ix.outline@[k].y as int);
            match heading_above(s, ix, top, to) {
                Some(k) => 0 <= k < to && at(k) < top - s.unit() && forall|j: int|
                    k < j < to ==> #[trigger] at(j) >= top - s.unit(),
                None => forall|j: int| 0 <= j < to ==> #[trigger] at(j) >= top - s.unit(),
            }
        }),
    decreases to,
{
    if to > 0 && view::row_at(s, ix, ix.outline@[to - 1].y as int) >= top - s.unit() {
        lemma_heading_above(s, ix, top, to - 1);
    }
}

/// Where a row of a page begins is as many rows down as it is counted, each as tall as the page's rows.
pub proof fn law_a_row_stands_where_it_is_counted(s: Shown, ix: Index, r: u32)
    ensures
        view::row_at(s, ix, r as int) == r * (ix.row * s.den) * 30,
{
    let t = ix.row * s.den;
    assert(r * (30 * t) == r * t * 30) by (nonlinear_arith);
}

} // verus!
