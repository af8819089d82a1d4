//! Sizes in pixels, and how one is brought within another.

use vstd::arithmetic::mul::lemma_mul_inequality;
use vstd::prelude::*;

verus! {

/// The pixel dimensions of one terminal character cell.
#[derive(Clone, Copy, Debug, PartialEq, Eq, Structural)]
pub struct CellSize {
    pub w: u32,
    pub h: u32,
}

impl CellSize {
    /// The guess used when the terminal reports no pixel size.
    //
    // 9x18 is timg's fallback: close to the common terminal
    // default, and it keeps the 1:2 cell ratio the fit math
    // assumes
    pub fn fallback() -> (r: CellSize)
        ensures
            r == (CellSize { w: 9, h: 18 }),
    {
        CellSize { w: 9, h: 18 }
    }

    /// How this cell is drawn at least `num / den` times coarser, where it is more than a pixel tall,
    /// and never finer than it is: a whole number of pixels tall, so a page's rows start on pixel
    /// boundaries and bands can be cut between them. The width follows at the same ratio.
    pub fn coarser(self, num: u32, den: u32) -> (r: Coarse)
        requires
            den > 0,
            self.h > 0,
        ensures
            1 <= r.h <= self.h,
            r.w.0 == self.w * r.h,
            r.w.1 == self.h,
            r.per == (self.h, r.h),
            num <= den ==> r.h == self.h,
            num > den ==> r.h == shrunk(self.h as int, den as int, num as int),
            num > den && r.h > 1 ==> r.h * num <= self.h * den < (r.h + 1) * num,
            num > den && r.h == 1 ==> self.h * den < 2 * num,
    {
        let h: u32 = self.coarser_height(num, den);
        proof {
            lemma_product(self.w as int, h as int);
        }
        Coarse { h, w: (self.w as u64 * h as u64, self.h), per: (self.h, h) }
    }

    fn coarser_height(self, num: u32, den: u32) -> (h: u32)
        requires
            den > 0,
            self.h > 0,
        ensures
            1 <= h <= self.h,
            num <= den ==> h == self.h,
            num > den ==> h == shrunk(self.h as int, den as int, num as int),
            num > den && h > 1 ==> h * num <= self.h * den < (h + 1) * num,
            num > den && h == 1 ==> self.h * den < 2 * num,
    {
        if num <= den {
            return self.h;
        }
        assert(0 <= self.h * den <= 0xffff_ffff * 0xffff_ffff) by (nonlinear_arith)
            requires
                0 <= self.h <= 0xffff_ffff,
                0 <= den <= 0xffff_ffff,
        ;
        let total: u64 = self.h as u64 * den as u64;
        let q: u64 = total / num as u64;
        proof {
            lemma_quotient(total as int, num as int);
            assert(q <= self.h) by (nonlinear_arith)
                requires
                    q * num <= self.h * den,
                    num >= den,
                    den > 0,
                    self.h >= 0,
                    q >= 0,
            ;
        }
        if q < 1 {
            1
        } else {
            q as u32
        }
    }
}

/// A cell drawn coarser.
#[derive(Clone, Copy, Debug, PartialEq, Eq)]
pub struct Coarse {
    /// How tall it is, in pixels.
    pub h: u32,
    /// How wide it is, in pixels, as a fraction.
    pub w: (u64, u32),
    /// How many pixels one of its own stands for, as a fraction.
    pub per: (u32, u32),
}

/// The space available to an image, and the scaling options the fit applies.
#[derive(Clone, Copy, Debug, PartialEq, Eq, Structural)]
pub struct Budget {
    pub cols: u32,
    pub rows: u32,
    pub cell: CellSize,
    pub upscale: bool,
    pub fill_width: bool,
    pub fill_height: bool,
}

/// A quotient lies within one of its fraction.
pub proof fn lemma_quotient(a: int, b: int)
    requires
        b > 0,
    ensures
        (a / b) * b <= a < (a / b + 1) * b,
        a >= 0 ==> a / b >= 0,
{
    assert((a / b) * b <= a < (a / b + 1) * b) by (nonlinear_arith)
        requires
            b > 0,
    ;
    assert(a >= 0 ==> a / b >= 0) by (nonlinear_arith)
        requires
            b > 0,
    ;
}

/// `a / b` to the nearest whole number; a half goes up.
pub open spec fn nearest(a: int, b: int) -> int {
    (2 * a + b) / (2 * b)
}

/// `n`, or `hi` where it is more.
pub open spec fn capped(n: int, hi: int) -> int {
    if n > hi {
        hi
    } else {
        n
    }
}

/// `n`, or one where it is less.
pub open spec fn some(n: int) -> int {
    if n < 1 {
        1
    } else {
        n
    }
}

/// `n` scaled by `num / den`, to the nearest pixel, one at least and no more than a side can have.
pub open spec fn scaled(n: int, num: int, den: int) -> u32 {
    capped(some(nearest(n * num, den)), u32::MAX as int) as u32
}

impl Budget {
    /// The pixels there are across.
    pub open spec fn wide(self) -> int {
        some(self.cols * self.cell.w)
    }

    /// The pixels there are down.
    pub open spec fn tall(self) -> int {
        some(self.rows * self.cell.h)
    }
}

/// Whether a picture is scaled by the width there is, rather than by the height. To fill one way is
/// to be scaled by that; to fill both is to be scaled by the one that asks for more; to fill
/// neither is to be scaled by the one that allows less.
pub open spec fn by_width(w: int, h: int, b: Budget) -> bool {
    match (b.fill_width, b.fill_height) {
        (true, true) => b.wide() * h >= b.tall() * w,
        (true, false) => true,
        (false, true) => false,
        (false, false) => b.wide() * h <= b.tall() * w,
    }
}

/// The size a picture is drawn at.
pub open spec fn fitted(img_w: u32, img_h: u32, b: Budget) -> (u32, u32) {
    let (w, h) = (some(img_w as int), some(img_h as int));
    if !b.upscale && !b.fill_width && !b.fill_height && b.wide() >= w && b.tall() >= h {
        (img_w, img_h)
    } else if by_width(w, h, b) {
        (scaled(w, b.wide(), w), scaled(h, b.wide(), w))
    } else {
        (scaled(w, b.tall(), h), scaled(h, b.tall(), h))
    }
}

/// `n` scaled by `num / den`.
pub fn scale(n: u32, num: u64, den: u64) -> (r: u32)
    requires
        den > 0,
    ensures
        r == scaled(n as int, num as int, den as int),
{
    assert(0 <= n * num <= 0xffff_ffff * 0xffff_ffff_ffff_ffff) by (nonlinear_arith)
        requires
            0 <= n <= 0xffff_ffff,
            0 <= num <= 0xffff_ffff_ffff_ffff,
    ;
    let q: u128 = (2 * (n as u128 * num as u128) + den as u128) / (2 * den as u128);
    if q < 1 {
        1
    } else if q > 0xffff_ffff {
        0xffff_ffff
    } else {
        q as u32
    }
}

/// Compute the pixel size to render at: the largest scaling of `img_w` by `img_h` that respects
/// `budget` and preserves the aspect ratio.
pub fn fit(img_w: u32, img_h: u32, budget: &Budget) -> (r: (u32, u32))
    ensures
        r == fitted(img_w, img_h, *budget),
{
    proof {
        lemma_product(budget.cols as int, budget.cell.w as int);
        lemma_product(budget.rows as int, budget.cell.h as int);
    }
    let aw: u64 = budget.cols as u64 * budget.cell.w as u64;
    let ah: u64 = budget.rows as u64 * budget.cell.h as u64;
    let aw: u64 = if aw < 1 {
        1
    } else {
        aw
    };
    let ah: u64 = if ah < 1 {
        1
    } else {
        ah
    };
    let w: u32 = if img_w < 1 {
        1
    } else {
        img_w
    };
    let h: u32 = if img_h < 1 {
        1
    } else {
        img_h
    };
    if !budget.upscale && !budget.fill_width && !budget.fill_height && aw >= w as u64 && ah
        >= h as u64 {
        return (img_w, img_h);
    }
    proof {
        lemma_wide_product(aw as int, h as int);
        lemma_wide_product(ah as int, w as int);
    }

    // the kitty protocol addresses real pixels, so there is
    // no cell aspect ratio to correct for
    let across: u128 = aw as u128 * h as u128;
    let down: u128 = ah as u128 * w as u128;
    let by_width = match (budget.fill_width, budget.fill_height) {
        (true, true) => across >= down,
        (true, false) => true,
        (false, true) => false,
        (false, false) => across <= down,
    };
    if by_width {
        (scale(w, aw, w as u64), scale(h, aw, w as u64))
    } else {
        (scale(w, ah, h as u64), scale(h, ah, h as u64))
    }
}

/// Two sides multiply without loss in twice the bits.
pub proof fn lemma_product(a: int, b: int)
    requires
        0 <= a <= 0xffff_ffff,
        0 <= b <= 0xffff_ffff,
    ensures
        0 <= a * b <= 0xffff_ffff * 0xffff_ffff,
{
    assert(0 <= a * b <= 0xffff_ffff * 0xffff_ffff) by (nonlinear_arith)
        requires
            0 <= a <= 0xffff_ffff,
            0 <= b <= 0xffff_ffff,
    ;
}

/// An area and a side multiply without loss in three times the bits of a side.
pub proof fn lemma_wide_product(a: int, b: int)
    requires
        0 <= a <= 0xffff_ffff_ffff_ffff,
        0 <= b <= 0xffff_ffff,
    ensures
        0 <= a * b <= 0xffff_ffff_ffff_ffff * 0xffff_ffff,
{
    assert(0 <= a * b <= 0xffff_ffff_ffff_ffff * 0xffff_ffff) by (nonlinear_arith)
        requires
            0 <= a <= 0xffff_ffff_ffff_ffff,
            0 <= b <= 0xffff_ffff,
    ;
}

/// The greatest of three.
pub open spec fn greatest(a: u32, b: u32, c: u32) -> u32 {
    if a >= b && a >= c {
        a
    } else if b >= c {
        b
    } else {
        c
    }
}

/// Compute how many times too large `w` by `h` is to fit within `cap` on both sides, as a
/// fraction: one where it already fits.
pub fn over_cap(w: u32, h: u32, cap: u32) -> (r: (u32, u32))
    ensures
        r.1 == some(cap as int),
        r.0 == greatest(w, h, r.1),
{
    let cap: u32 = if cap < 1 {
        1
    } else {
        cap
    };
    let over: u32 = if w >= h && w >= cap {
        w
    } else if h >= cap {
        h
    } else {
        cap
    };
    (over, cap)
}

/// Scaling is monotone: more pixels scaled by the same fraction are no fewer.
pub proof fn law_scaled_keeps_order(a: int, b: int, num: int, den: int)
    requires
        0 <= a <= b,
        num >= 0,
        den > 0,
    ensures
        scaled(a, num, den) <= scaled(b, num, den),
{
    lemma_mul_inequality(a, b, num);
    let (x, y) = (2 * (a * num) + den, 2 * (b * num) + den);
    assert(x / (2 * den) <= y / (2 * den)) by (nonlinear_arith)
        requires
            x <= y,
            den > 0,
    ;
}

pub proof fn lemma_nearest_within(n: int, num: int, den: int, hi: int)
    requires
        n >= 0,
        num >= 0,
        den > 0,
        n * num <= hi * den,
    ensures
        nearest(n * num, den) <= hi,
{
    let a = 2 * (n * num) + den;
    assert(a < (hi + 1) * (2 * den)) by (nonlinear_arith)
        requires
            a == 2 * (n * num) + den,
            n * num <= hi * den,
            den > 0,
    ;
    assert(a / (2 * den) < hi + 1) by (nonlinear_arith)
        requires
            a < (hi + 1) * (2 * den),
            den > 0,
    ;
}

pub proof fn lemma_nearest_same(n: int, m: int)
    requires
        n > 0,
    ensures
        nearest(n * m, n) == m,
{
    assert((2 * (n * m) + n) / (2 * n) == m) by (nonlinear_arith)
        requires
            n > 0,
    ;
}

/// A picture that is asked to fill neither way stays within the space there is, and touches it one
/// way or keeps its own size.
pub proof fn law_fit_stays_within(img_w: u32, img_h: u32, b: Budget)
    requires
        img_w > 0,
        img_h > 0,
        !b.fill_width,
        !b.fill_height,
        b.wide() <= u32::MAX,
        b.tall() <= u32::MAX,
    ensures
        fitted(img_w, img_h, b).0 <= b.wide(),
        fitted(img_w, img_h, b).1 <= b.tall(),
        fitted(img_w, img_h, b) == (img_w, img_h) || fitted(img_w, img_h, b).0 == b.wide()
            || fitted(img_w, img_h, b).1 == b.tall(),
{
    let (w, h) = (img_w as int, img_h as int);
    if by_width(w, h, b) {
        lemma_nearest_same(w, b.wide());
        assert(h * b.wide() == b.wide() * h) by (nonlinear_arith);
        lemma_nearest_within(h, b.wide(), w, b.tall());
    } else {
        lemma_nearest_same(h, b.tall());
        assert(w * b.tall() == b.tall() * w) by (nonlinear_arith);
        lemma_nearest_within(w, b.tall(), h, b.wide());
    }
}

/// The cap never grows a picture, and brings both sides within it.
pub proof fn law_cap_shrinks(w: u32, h: u32, cap: u32)
    requires
        cap > 0,
        w > 0,
        h > 0,
    ensures
        ({
            let over = greatest(w, h, cap);
            &&& scaled(w as int, cap as int, over as int) <= cap
            &&& scaled(h as int, cap as int, over as int) <= cap
            &&& w <= cap && h <= cap ==> scaled(w as int, cap as int, over as int) == w && scaled(
                h as int,
                cap as int,
                over as int,
            ) == h
        }),
{
    let over = greatest(w, h, cap) as int;
    assert(w * cap <= cap * over) by (nonlinear_arith)
        requires
            w <= over,
            cap > 0,
    ;
    assert(h * cap <= cap * over) by (nonlinear_arith)
        requires
            h <= over,
            cap > 0,
    ;
    lemma_nearest_within(w as int, cap as int, over, cap as int);
    lemma_nearest_within(h as int, cap as int, over, cap as int);
    if w <= cap && h <= cap {
        assert(w * cap == cap * w) by (nonlinear_arith);
        assert(h * cap == cap * h) by (nonlinear_arith);
        lemma_nearest_same(cap as int, w as int);
        lemma_nearest_same(cap as int, h as int);
    }
}

/// Whether `n` is the side of the largest square of at most `q` pixels.
pub open spec fn is_root(n: int, q: int) -> bool {
    0 <= n && n * n <= q < (n + 1) * (n + 1)
}

/// The side of the largest square of at most `q` pixels.
pub open spec fn root(q: int) -> int {
    choose|n: int| is_root(n, q)
}

/// There is one such side.
pub proof fn lemma_root(n: int, q: int)
    requires
        is_root(n, q),
    ensures
        root(q) == n,
{
    let m = root(q);
    assert(is_root(m, q));
    if m < n {
        assert((m + 1) * (m + 1) <= n * n) by (nonlinear_arith)
            requires
                0 <= m < n,
        ;
    } else if n < m {
        assert((n + 1) * (n + 1) <= m * m) by (nonlinear_arith)
            requires
                0 <= n < m,
        ;
    }
}

/// Every count has such a side.
pub proof fn lemma_has_root(q: int)
    requires
        0 <= q,
    ensures
        is_root(root(q), q),
    decreases q,
{
    if q == 0 {
        assert(is_root(0, 0));
    } else {
        lemma_has_root(q - 1);
        let n = root(q - 1);
        assert((n + 2) * (n + 2) == (n + 1) * (n + 1) + 2 * n + 3) by (nonlinear_arith);
        if (n + 1) * (n + 1) <= q {
            assert(is_root(n + 1, q));
        } else {
            assert(is_root(n, q));
        }
    }
}

/// The square root of `q`, rounded down.
fn root_of(q: u128) -> (r: u64)
    requires
        q < 0x4_0000_0000 * 0x4_0000_0000,
    ensures
        r == root(q as int),
        r < 0x4_0000_0000,
{
    let mut lo: u64 = 0;
    let mut hi: u64 = 0x4_0000_0000;
    while hi - lo > 1
        invariant
            lo < hi <= 0x4_0000_0000,
            lo * lo <= q,
            q < hi * hi,
        decreases hi - lo,
    {
        let mid: u64 = lo + (hi - lo) / 2;
        assert(0 <= mid * mid <= 0x4_0000_0000 * 0x4_0000_0000) by (nonlinear_arith)
            requires
                0 <= mid <= 0x4_0000_0000,
        ;
        if mid as u128 * mid as u128 <= q {
            lo = mid;
        } else {
            hi = mid;
        }
    }
    proof {
        lemma_root(lo as int, q as int);
    }
    lo
}

/// The side of the largest square of at most `q` pixels, or the longest side there is.
pub fn square_side(q: u64) -> (r: u32)
    ensures
        r == root(q as int),
{
    let n: u64 = root_of(q as u128);
    proof {
        lemma_has_root(q as int);
        assert(n <= 0xffff_ffff) by (nonlinear_arith)
            requires
                n * n <= q,
                q <= 0xffff_ffff_ffff_ffff,
                0 <= n,
        ;
    }
    n as u32
}

/// The square root of `a / b`, to the nearest whole number.
pub open spec fn near_root(a: int, b: int) -> int {
    (root(4 * a / b) + 1) / 2
}

/// What a side `w` beside a side `h` comes to where both are rounded down to hold no more than
/// `max_px` pixels.
pub open spec fn side_below(w: int, h: int, max_px: int) -> int {
    some(capped(root(max_px * w / h), max_px))
}

/// A picture brought within a count of pixels: its size, and how many pixels one of its own stands
/// for, as a fraction.
#[derive(Clone, Copy, Debug, PartialEq, Eq, Structural)]
pub struct Held {
    pub w: u32,
    pub h: u32,
    pub num: u32,
    pub den: u32,
}

/// The size that `w` by `h` is shrunk to, its aspect kept, to hold no more than `max_px` pixels: each
/// side to the nearest pixel, or where that is too many, rounded down.
pub open spec fn held_size(w: int, h: int, max_px: int) -> (int, int) {
    let (a, b) = (some(near_root(max_px * w, h)), some(near_root(max_px * h, w)));
    if a * b <= max_px {
        (a, b)
    } else {
        (side_below(w, h, max_px), side_below(h, w, max_px))
    }
}

/// How many times too large a picture of `area` pixels is each way to hold no more than `max_px`, as a
/// fraction: the square root, to a 65536th or where that is too fine for a side's bits to a whole.
pub open spec fn factor(area: int, max_px: int) -> (int, int) {
    let q = 0x1_0000_0000 * area / max_px;
    if q < 0x1_0000_0000 * 0x1_0000_0000 {
        (root(q), 0x1_0000)
    } else {
        (root(area / max_px), 1)
    }
}

/// What a pixel of a picture stands for that is shrunk to hold no more than `max_px` pixels: as much
/// either way, but where its shorter side comes to less than a pixel, which goes by the longer.
pub open spec fn held_per(w: int, h: int, a: int, b: int, max_px: int) -> (int, int) {
    if max_px * h < w {
        (w, a)
    } else if max_px * w < h {
        (h, b)
    } else {
        factor(w * h, max_px)
    }
}

/// `w` by `h` brought within `max_px` pixels: as it is where it holds no more.
pub open spec fn held_of(w: u32, h: u32, max_px: int) -> Held {
    if w * h <= max_px {
        Held { w, h, num: 1, den: 1 }
    } else {
        let (a, b) = held_size(w as int, h as int, max_px);
        let (num, den) = held_per(w as int, h as int, a, b, max_px);
        Held { w: a as u32, h: b as u32, num: num as u32, den: den as u32 }
    }
}

/// One side: rounded to the nearest, and rounded down.
fn sides(w: u32, h: u32, max_px: u64) -> (r: (u32, u32))
    requires
        max_px < w * h,
    ensures
        r.0 == some(near_root(max_px * w, h as int)),
        r.1 == side_below(w as int, h as int, max_px as int),
        1 <= r.0 <= w,
        1 <= r.1 <= w,
{
    assert(w > 0 && h > 0) by (nonlinear_arith)
        requires
            max_px < w * h,
            0 <= max_px,
            0 <= w,
            0 <= h,
    ;
    proof {
        lemma_wide_product(max_px as int, w as int);
        lemma_side(w as int, h as int, max_px as int);
    }
    let area: u128 = max_px as u128 * w as u128;
    let fine: u64 = root_of(4 * area / h as u128);
    let near: u64 = (fine + 1) / 2;
    let below: u64 = root_of(area / h as u128);
    let below: u64 = if below > max_px {
        max_px
    } else {
        below
    };
    (
        if near < 1 {
            1
        } else {
            near as u32
        },
        if below < 1 {
            1
        } else {
            below as u32
        },
    )
}

/// Bring `w` by `h` within `max_px` pixels.
pub fn hold(w: u32, h: u32, max_px: u64) -> (r: Held)
    ensures
        r == held_of(w, h, max_px as int),
        w > 0 && h > 0 ==> 1 <= r.w <= w && 1 <= r.h <= h,
        0 < r.den <= r.num,
{
    proof {
        lemma_product(w as int, h as int);
    }
    if w as u64 * h as u64 <= max_px {
        return Held { w, h, num: 1, den: 1 };
    }
    assert(h * w == w * h) by (nonlinear_arith);
    let (near_w, below_w) = sides(w, h, max_px);
    let (near_h, below_h) = sides(h, w, max_px);
    proof {
        lemma_product(near_w as int, near_h as int);
    }
    let (a, b) = if near_w as u64 * near_h as u64 <= max_px {
        (near_w, near_h)
    } else {
        (below_w, below_h)
    };
    proof {
        lemma_wide_product(max_px as int, h as int);
        lemma_wide_product(max_px as int, w as int);
    }
    if max_px as u128 * (h as u128) < w as u128 {
        return Held { w: a, h: b, num: w, den: a };
    }
    if max_px as u128 * (w as u128) < h as u128 {
        return Held { w: a, h: b, num: h, den: b };
    }
    proof {
        lemma_some_pixels(w as int, h as int, max_px as int);
        lemma_factor(w * h, max_px as int);
    }
    let area: u64 = w as u64 * h as u64;
    let q: u128 = 0x1_0000_0000 * area as u128 / max_px as u128;
    if q < 0x1_0000_0000 * 0x1_0000_0000 {
        Held { w: a, h: b, num: root_of(q) as u32, den: 0x1_0000 }
    } else {
        Held { w: a, h: b, num: root_of((area / max_px) as u128) as u32, den: 1 }
    }
}

proof fn lemma_some_pixels(w: int, h: int, max_px: int)
    requires
        0 < w,
        0 <= max_px,
        max_px * w >= h,
        0 < h,
    ensures
        max_px >= 1,
{
    if max_px == 0 {
        assert(max_px * w == 0) by (nonlinear_arith)
            requires
                max_px == 0,
        ;
    }
}

/// What the factor squares to, and that it fits a side's bits and does not enlarge.
proof fn lemma_factor(area: int, max_px: int)
    requires
        1 <= max_px < area,
        area <= 0xffff_ffff * 0xffff_ffff,
    ensures
        ({
            let (num, den) = factor(area, max_px);
            &&& 1 <= den <= num <= u32::MAX
            &&& num * num * max_px <= den * den * area
            &&& den * den * area < (num + 1) * (num + 1) * max_px
        }),
{
    let (num, den) = factor(area, max_px);
    let q = 0x1_0000_0000 * area / max_px;
    lemma_quotient(0x1_0000_0000 * area, max_px);
    let p = area / max_px;
    lemma_quotient(area, max_px);
    let (k, n) = if q < 0x1_0000_0000 * 0x1_0000_0000 {
        (q, 0x1_0000_0000 * area)
    } else {
        (p, area)
    };
    let dd = den * den;
    assert(dd == if q < 0x1_0000_0000 * 0x1_0000_0000 {
        0x1_0000_0000int
    } else {
        1int
    }) by (nonlinear_arith)
        requires
            dd == den * den,
            q < 0x1_0000_0000 * 0x1_0000_0000 ==> den == 0x1_0000,
            q >= 0x1_0000_0000 * 0x1_0000_0000 ==> den == 1,
    ;
    assert(n == dd * area) by (nonlinear_arith)
        requires
            (n == 0x1_0000_0000 * area && dd == 0x1_0000_0000) || (n == area && dd == 1),
    ;
    assert(k >= dd) by (nonlinear_arith)
        requires
            n < (k + 1) * max_px,
            n == dd * area,
            max_px < area,
            1 <= max_px,
            1 <= dd,
    ;
    assert(k < 0x1_0000_0000 * 0x1_0000_0000) by (nonlinear_arith)
        requires
            k < 0x1_0000_0000 * 0x1_0000_0000 || (k * max_px <= area && area <= 0xffff_ffff
                * 0xffff_ffff),
            1 <= max_px,
    ;
    lemma_has_root(k);
    assert(num == root(k));
    assert(den <= num <= 0xffff_ffff) by (nonlinear_arith)
        requires
            num * num <= k < (num + 1) * (num + 1),
            den * den <= k < 0x1_0000_0000 * 0x1_0000_0000,
            0 <= num,
            1 <= den,
    ;
    assert(num * num * max_px <= n) by (nonlinear_arith)
        requires
            num * num <= k,
            k * max_px <= n,
            1 <= max_px,
    ;
    assert(n < (num + 1) * (num + 1) * max_px) by (nonlinear_arith)
        requires
            k < (num + 1) * (num + 1),
            n < (k + 1) * max_px,
            1 <= max_px,
    ;
}

/// Either way a side is rounded, it is within a pixel of what the aspect asks for, and no longer than
/// it was.
proof fn lemma_side(w: int, h: int, max_px: int)
    requires
        0 < w <= u32::MAX,
        0 < h <= u32::MAX,
        0 <= max_px < w * h,
    ensures
        ({
            let near = near_root(max_px * w, h);
            let below = root(max_px * w / h);
            &&& 0 <= 4 * (max_px * w) / h < 0x4_0000_0000 * 0x4_0000_0000
            &&& 0 <= max_px * w / h < 0x4_0000_0000 * 0x4_0000_0000
            &&& 0 <= near <= w
            &&& near >= 1 ==> (2 * near - 1) * (2 * near - 1) * h <= 4 * (max_px * w)
            &&& 4 * (max_px * w) < (2 * near + 1) * (2 * near + 1) * h
            &&& 0 <= below < w
            &&& below * below * h <= max_px * w < (below + 1) * (below + 1) * h
        }),
{
    let a = max_px * w;
    assert(0 <= a < w * w * h) by (nonlinear_arith)
        requires
            a == max_px * w,
            0 <= max_px < w * h,
            0 < w,
    ;
    let q = 4 * a / h;
    lemma_quotient(4 * a, h);
    assert(q < 4 * (w * w)) by (nonlinear_arith)
        requires
            q * h <= 4 * a,
            a < w * w * h,
            0 < h,
    ;
    let p = a / h;
    lemma_quotient(a, h);
    assert(p < w * w) by (nonlinear_arith)
        requires
            p * h <= a,
            a < w * w * h,
            0 < h,
    ;
    assert(w * w <= 0xffff_ffff * 0xffff_ffff) by (nonlinear_arith)
        requires
            0 < w <= 0xffff_ffff,
    ;
    let s = root(q);
    lemma_has_root(q);
    let near = (s + 1) / 2;
    assert(s < 2 * w) by (nonlinear_arith)
        requires
            s * s <= q,
            q < 4 * (w * w),
            0 <= s,
            0 < w,
    ;
    if near >= 1 {
        assert((2 * near - 1) * (2 * near - 1) * h <= 4 * a) by (nonlinear_arith)
            requires
                1 <= 2 * near - 1 <= s,
                s * s <= q,
                q * h <= 4 * a,
                0 < h,
        ;
    }
    assert(4 * a < (2 * near + 1) * (2 * near + 1) * h) by (nonlinear_arith)
        requires
            0 <= s,
            s + 1 <= 2 * near + 1,
            q < (s + 1) * (s + 1),
            4 * a < (q + 1) * h,
            0 < h,
    ;
    let below = root(p);
    lemma_has_root(p);
    assert(below < w) by (nonlinear_arith)
        requires
            below * below <= p,
            p < w * w,
            0 <= below,
            0 < w,
    ;
    assert(below * below * h <= a) by (nonlinear_arith)
        requires
            below * below <= p,
            p * h <= a,
            0 < h,
    ;
    assert(a < (below + 1) * (below + 1) * h) by (nonlinear_arith)
        requires
            p < (below + 1) * (below + 1),
            a < (p + 1) * h,
            0 < h,
    ;
}

/// Two sides that are each rounded down hold no more than they may.
proof fn lemma_below(w: int, h: int, x: int, y: int, max_px: int)
    requires
        0 < w,
        0 < h,
        0 <= x,
        0 <= y,
        0 <= max_px,
        x * x * h <= max_px * w,
        y * y * w <= max_px * h,
    ensures
        x * y <= max_px,
{
    let (p, q) = (x * x * h, y * y * w);
    assert(p * q <= (max_px * w) * (max_px * h)) by (nonlinear_arith)
        requires
            0 <= p <= max_px * w,
            0 <= q <= max_px * h,
    ;
    assert(0 <= p && 0 <= q) by (nonlinear_arith)
        requires
            p == x * x * h,
            q == y * y * w,
            0 < w,
            0 < h,
    ;
    let k = w * h;
    assert(p * q == (x * y) * (x * y) * k) by (nonlinear_arith)
        requires
            p == x * x * h,
            q == y * y * w,
            k == w * h,
    ;
    assert((max_px * w) * (max_px * h) == max_px * max_px * k) by (nonlinear_arith)
        requires
            k == w * h,
    ;
    let (a, b) = ((x * y) * (x * y), max_px * max_px);
    assert(k > 0) by (nonlinear_arith)
        requires
            k == w * h,
            0 < w,
            0 < h,
    ;
    assert(a <= b) by (nonlinear_arith)
        requires
            a * k <= b * k,
            k > 0,
    ;
    let n = x * y;
    assert(n <= max_px) by (nonlinear_arith)
        requires
            n * n <= max_px * max_px,
            0 <= max_px,
    ;
}

/// A picture brought within a count of pixels holds no more, does not grow either way, and stays as
/// it is where it held no more already.
pub proof fn law_pixels_within(w: u32, h: u32, max_px: int)
    requires
        1 <= w,
        1 <= h,
        1 <= max_px,
    ensures
        ({
            let r = held_of(w, h, max_px);
            &&& 1 <= r.w <= w
            &&& 1 <= r.h <= h
            &&& 0 < r.den <= r.num
            &&& r.w * r.h <= max_px
            &&& w * h <= max_px ==> r == (Held { w, h, num: 1, den: 1 })
        }),
{
    if w * h > max_px {
        let (wi, hi) = (w as int, h as int);
        assert(hi * wi == wi * hi) by (nonlinear_arith);
        lemma_side(wi, hi, max_px);
        lemma_side(hi, wi, max_px);
        lemma_product(wi, hi);
        lemma_factor(wi * hi, max_px);
        let (a, b) = (some(near_root(max_px * wi, hi)), some(near_root(max_px * hi, wi)));
        if a * b > max_px {
            let x = root(max_px * wi / hi);
            let y = root(max_px * hi / wi);
            lemma_below(wi, hi, x, y, max_px);
            let (c, d) = (side_below(wi, hi, max_px), side_below(hi, wi, max_px));
            assert(c * d <= max_px) by (nonlinear_arith)
                requires
                    x * y <= max_px,
                    1 <= max_px,
                    0 <= x,
                    0 <= y,
                    c == 1 || (c <= x && c <= max_px),
                    d == 1 || (d <= y && d <= max_px),
                    1 <= c,
                    1 <= d,
            ;
        }
    }
}

/// A side of a picture over the cap is the nearest there is to what its aspect asks for, the square
/// root of so many pixels times the aspect, unless both sides rounded so hold too many pixels.
pub proof fn law_a_held_side_is_the_nearest(w: u32, h: u32, max_px: int)
    requires
        1 <= max_px < w * h,
    ensures
        ({
            let r = held_of(w, h, max_px);
            let (a, b) = (
                some(near_root(max_px * w, h as int)),
                some(near_root(max_px * h, w as int)),
            );
            &&& a * b <= max_px ==> r.w == a && r.h == b
            &&& a > 1 ==> (2 * a - 1) * (2 * a - 1) * h <= 4 * (max_px * w)
            &&& 4 * (max_px * w) < (2 * a + 1) * (2 * a + 1) * h
            &&& b > 1 ==> (2 * b - 1) * (2 * b - 1) * w <= 4 * (max_px * h)
            &&& 4 * (max_px * h) < (2 * b + 1) * (2 * b + 1) * w
        }),
{
    let (wi, hi) = (w as int, h as int);
    assert(wi > 0 && hi > 0) by (nonlinear_arith)
        requires
            1 <= wi * hi,
            0 <= wi,
            0 <= hi,
    ;
    assert(hi * wi == wi * hi) by (nonlinear_arith);
    lemma_side(wi, hi, max_px);
    lemma_side(hi, wi, max_px);
    let (near_a, near_b) = (near_root(max_px * wi, hi), near_root(max_px * hi, wi));
    lemma_some_side(near_a, hi);
    lemma_some_side(near_b, wi);
}

/// A pixel is no less than none.
proof fn lemma_some_side(n: int, h: int)
    requires
        0 <= n,
        0 < h,
    ensures
        (2 * n + 1) * (2 * n + 1) * h <= (2 * some(n) + 1) * (2 * some(n) + 1) * h,
{
    let m = some(n);
    assert((2 * n + 1) * (2 * n + 1) * h <= (2 * m + 1) * (2 * m + 1) * h) by (nonlinear_arith)
        requires
            0 <= n <= m,
            0 < h,
    ;
}

/// Products compare as what their squares are made of.
proof fn lemma_products(x: int, y: int, p: int, q: int, u: int, v: int, m: int, n: int)
    requires
        0 <= x,
        0 <= y,
        0 < p,
        0 < q,
        0 <= u,
        0 <= v,
        0 <= m,
        0 <= n,
        x * x * p <= m,
        y * y * q <= n,
        m * n == (u * v) * (u * v) * (p * q),
    ensures
        x * y <= u * v,
{
    let (a, b) = (x * x * p, y * y * q);
    assert(0 <= a && 0 <= b) by (nonlinear_arith)
        requires
            a == x * x * p,
            b == y * y * q,
            0 < p,
            0 < q,
    ;
    assert(a * b <= m * n) by (nonlinear_arith)
        requires
            0 <= a <= m,
            0 <= b <= n,
    ;
    let (s, t, k) = (x * y, u * v, p * q);
    assert(a * b == s * s * k) by (nonlinear_arith)
        requires
            a == x * x * p,
            b == y * y * q,
            s == x * y,
            k == p * q,
    ;
    assert(k > 0) by (nonlinear_arith)
        requires
            k == p * q,
            0 < p,
            0 < q,
    ;
    let (ss, tt) = (s * s, t * t);
    assert(ss <= tt) by (nonlinear_arith)
        requires
            ss * k <= tt * k,
            k > 0,
    ;
    assert(0 <= t) by (nonlinear_arith)
        requires
            t == u * v,
            0 <= u,
            0 <= v,
    ;
    assert(s <= t) by (nonlinear_arith)
        requires
            s * s <= t * t,
            0 <= t,
    ;
}

proof fn lemma_within_a_pixel(w: int, h: int, max_px: int, c: int)
    requires
        0 < w <= u32::MAX,
        0 < h <= u32::MAX,
        1 <= max_px < w * h,
        c == some(near_root(max_px * w, h)) || c == some(root(max_px * w / h)),
    ensures
        1 <= c,
        (c - 1) * (c - 1) * h <= max_px * w,
        max_px * w < (c + 1) * (c + 1) * h,
{
    lemma_side(w, h, max_px);
    let near = near_root(max_px * w, h);
    let below = root(max_px * w / h);
    let a = max_px * w;
    assert(0 <= a) by (nonlinear_arith)
        requires
            a == max_px * w,
            0 < w,
            1 <= max_px,
    ;
    if c == 1 {
        assert((c - 1) * (c - 1) * h == 0) by (nonlinear_arith)
            requires
                c == 1,
        ;
    }
    if c == some(near) {
        if near >= 1 {
            assert((c - 1) * (c - 1) * h <= a) by (nonlinear_arith)
                requires
                    (2 * c - 1) * (2 * c - 1) * h <= 4 * a,
                    1 <= c,
                    0 < h,
            ;
        }
        assert(a < (c + 1) * (c + 1) * h) by (nonlinear_arith)
            requires
                4 * a < (2 * near + 1) * (2 * near + 1) * h,
                0 <= near <= c,
                0 < h,
        ;
    } else {
        if below >= 1 {
            assert((c - 1) * (c - 1) * h <= a) by (nonlinear_arith)
                requires
                    c * c * h <= a,
                    1 <= c,
                    0 < h,
            ;
        }
        assert(a < (c + 1) * (c + 1) * h) by (nonlinear_arith)
            requires
                a < (below + 1) * (below + 1) * h,
                0 <= below <= c,
                0 < h,
        ;
    }
}

/// One side against what it stands for.
proof fn lemma_side_stands(w: int, h: int, c: int, max_px: int)
    requires
        0 < w <= u32::MAX,
        0 < h <= u32::MAX,
        1 <= max_px < w * h,
        c == some(near_root(max_px * w, h)) || c == some(root(max_px * w / h)),
    ensures
        ({
            let (num, den) = factor(w * h, max_px);
            -(num + c + 1) <= c * num - w * den <= num
        }),
{
    let (num, den) = factor(w * h, max_px);
    lemma_product(w, h);
    lemma_factor(w * h, max_px);
    lemma_within_a_pixel(w, h, max_px, c);
    let m = max_px * w;
    let n = den * den * (w * h);
    assert(m >= 0 && n >= 0) by (nonlinear_arith)
        requires
            m == max_px * w,
            n == den * den * (w * h),
            0 < w,
            0 < h,
            1 <= max_px,
    ;
    assert(m * n == (w * den) * (w * den) * (h * max_px)) by (nonlinear_arith)
        requires
            m == max_px * w,
            n == den * den * (w * h),
    ;
    lemma_products(c - 1, num, h, max_px, w, den, m, n);
    assert((c - 1) * num == c * num - num) by (nonlinear_arith);
    let (p, q) = ((c + 1) * (c + 1) * h, (num + 1) * (num + 1) * max_px);
    assert(p >= 0 && q >= 0) by (nonlinear_arith)
        requires
            p == (c + 1) * (c + 1) * h,
            q == (num + 1) * (num + 1) * max_px,
            0 < h,
            1 <= max_px,
    ;
    // w * den <= (c + 1) * (num + 1), by the same squares
    let k = w * den;
    let t = (c + 1) * (num + 1);
    assert(m * n <= p * q) by (nonlinear_arith)
        requires
            0 <= m <= p,
            0 <= n <= q,
    ;
    let hm = h * max_px;
    assert(p * q == t * t * hm) by (nonlinear_arith)
        requires
            p == (c + 1) * (c + 1) * h,
            q == (num + 1) * (num + 1) * max_px,
            t == (c + 1) * (num + 1),
            hm == h * max_px,
    ;
    assert(hm > 0) by (nonlinear_arith)
        requires
            hm == h * max_px,
            0 < h,
            1 <= max_px,
    ;
    let (kk, tt) = (k * k, t * t);
    assert(kk <= tt) by (nonlinear_arith)
        requires
            kk * hm <= tt * hm,
            hm > 0,
    ;
    assert(0 <= t) by (nonlinear_arith)
        requires
            t == (c + 1) * (num + 1),
            1 <= c,
            1 <= num,
    ;
    assert(k <= t) by (nonlinear_arith)
        requires
            k * k <= t * t,
            0 <= t,
    ;
    assert(t == c * num + num + c + 1) by (nonlinear_arith)
        requires
            t == (c + 1) * (num + 1),
    ;
}

/// What a picture brought within a count of pixels stands for is what it was, but for one of its own
/// pixels either way, and for what the factor is short of by its rounding.
pub proof fn law_held_stands_for_what_it_was(w: u32, h: u32, max_px: int)
    requires
        1 <= w,
        1 <= h,
        1 <= max_px,
    ensures
        ({
            let r = held_of(w, h, max_px);
            &&& -(r.num + r.w + 1) <= r.w * r.num - w * r.den <= r.num
            &&& -(r.num + r.h + 1) <= r.h * r.num - h * r.den <= r.num
        }),
{
    if w * h > max_px {
        let (wi, hi) = (w as int, h as int);
        assert(hi * wi == wi * hi) by (nonlinear_arith);
        lemma_side(wi, hi, max_px);
        lemma_side(hi, wi, max_px);
        lemma_product(wi, hi);
        lemma_factor(wi * hi, max_px);
        let (a, b) = held_size(wi, hi, max_px);
        if max_px * hi < wi {
            lemma_sliver(wi, hi, max_px);
        } else if max_px * wi < hi {
            lemma_sliver(hi, wi, max_px);
            let (c, d) = held_size(hi, wi, max_px);
            let (m, n) = (some(near_root(max_px * wi, hi)), some(near_root(max_px * hi, wi)));
            assert(m * n == n * m) by (nonlinear_arith);
            assert((a, b) == (d, c));
        } else {
            lemma_uncapped(wi, hi, max_px);
            lemma_uncapped(hi, wi, max_px);
            lemma_side_stands(wi, hi, a, max_px);
            lemma_side_stands(hi, wi, b, max_px);
        }
        let r = held_of(w, h, max_px);
        assert(r.w == a && r.h == b);
        assert(a * wi == wi * a && b * hi == hi * b) by (nonlinear_arith);
        if max_px * hi < wi {
            assert(b * wi == wi) by (nonlinear_arith)
                requires
                    b == 1,
            ;
        } else if max_px * wi < hi {
            assert(a * hi == hi) by (nonlinear_arith)
                requires
                    a == 1,
            ;
        }
    }
}

/// A side rounded down is no more than all the pixels, where the other comes to one at least.
proof fn lemma_uncapped(w: int, h: int, max_px: int)
    requires
        0 < w <= u32::MAX,
        0 < h <= u32::MAX,
        1 <= max_px < w * h,
        max_px * h >= w,
    ensures
        root(max_px * w / h) <= max_px,
{
    lemma_side(w, h, max_px);
    let x = root(max_px * w / h);
    if x > max_px {
        assert(max_px * h < w) by (nonlinear_arith)
            requires
                x * x * h <= max_px * w,
                x > max_px,
                1 <= max_px,
                0 < h,
        ;
    }
}

/// A picture so thin that a row of it is all there is.
proof fn lemma_sliver(w: int, h: int, max_px: int)
    requires
        0 < w <= u32::MAX,
        0 < h <= u32::MAX,
        1 <= max_px < w * h,
        max_px * h < w,
    ensures
        ({
            let (a, b) = held_size(w, h, max_px);
            &&& b == 1
            &&& 0 <= h * a <= w
        }),
{
    assert(h * w == w * h) by (nonlinear_arith);
    lemma_side(w, h, max_px);
    lemma_side(h, w, max_px);
    let (a, b) = held_size(w, h, max_px);
    let y = root(max_px * h / w);
    let near = near_root(max_px * h, w);
    if y >= 1 {
        assert(y * y * w >= w) by (nonlinear_arith)
            requires
                y >= 1,
                w > 0,
        ;
    }
    if near >= 2 {
        assert((2 * near - 1) * (2 * near - 1) * w >= 9 * w) by (nonlinear_arith)
            requires
                near >= 2,
                w > 0,
        ;
    }
    assert(b == 1);
    assert(a <= max_px) by {
        let c = some(near_root(max_px * w, h));
        if c * some(near) <= max_px {
            assert(c * some(near) == c) by (nonlinear_arith)
                requires
                    some(near) == 1,
            ;
        }
    }
    assert(0 <= h * a <= max_px * h) by (nonlinear_arith)
        requires
            0 < h,
            1 <= a <= max_px,
    ;
}

/// `n` shrunk by `num / den`: whole pixels, and one at least.
pub open spec fn shrunk(n: int, num: int, den: int) -> int {
    some(n * num / den)
}

/// `n` shrunk by `num / den`.
pub fn shrink(n: u32, num: u32, den: u32) -> (r: u32)
    requires
        0 < num <= den,
    ensures
        r == shrunk(n as int, num as int, den as int),
        r >= 1,
        n >= 1 ==> r <= n,
{
    proof {
        lemma_product(n as int, num as int);
        lemma_shrunk(n as int, num as int, den as int);
    }
    let q: u64 = n as u64 * num as u64 / den as u64;
    if q < 1 {
        1
    } else {
        q as u32
    }
}

/// What is shrunk does not grow.
pub proof fn lemma_shrunk(n: int, num: int, den: int)
    requires
        0 <= n,
        0 < num <= den,
    ensures
        0 <= n * num / den <= n,
        num == den ==> n * num / den == n,
{
    assert(0 <= n * num / den <= n) by (nonlinear_arith)
        requires
            0 <= n,
            0 < num <= den,
    ;
    if num == den {
        assert(n * num / den == n) by (nonlinear_arith)
            requires
                num == den,
                0 < den,
        ;
    }
}

/// Something `h` tall cut into slices `tall` each, top to bottom, from `from` on: the top of each and
/// its height. The last is what is left.
pub open spec fn cuts(h: int, tall: int, from: int) -> Seq<(u32, u32)>
    decreases h - from,
{
    if tall < 1 || from >= h {
        seq![]
    } else {
        let piece = capped(h - from, tall);
        seq![(from as u32, piece as u32)] + cuts(h, tall, from + piece)
    }
}

/// Cut something `h` tall into slices `tall` each, top to bottom.
pub fn cut(h: u32, tall: u32) -> (r: Vec<(u32, u32)>)
    requires
        tall > 0,
    ensures
        r@ == cuts(h as int, tall as int, 0),
{
    let mut out: Vec<(u32, u32)> = Vec::new();
    let mut y: u32 = 0;
    while y < h
        invariant
            y <= h,
            tall > 0,
            cuts(h as int, tall as int, 0) =~= out@ + cuts(h as int, tall as int, y as int),
        decreases h - y,
    {
        let piece: u32 = if h - y > tall {
            tall
        } else {
            h - y
        };
        out.push((y, piece));
        y += piece;
    }
    out
}

/// There are no more slices than rows.
pub proof fn lemma_few_cuts(h: int, tall: int, from: int)
    ensures
        from <= h ==> cuts(h, tall, from).len() <= h - from,
        from > h ==> cuts(h, tall, from).len() == 0,
    decreases h - from,
{
    if tall >= 1 && from < h {
        lemma_few_cuts(h, tall, from + capped(h - from, tall));
    }
}

/// Slices cover what was cut exactly: the first begins at the top, each begins where the one before
/// ends, the last ends at the bottom, and none is empty or taller than asked.
pub proof fn law_cuts_cover(h: int, tall: int, from: int)
    requires
        0 <= from <= h <= u32::MAX,
        0 < tall,
    ensures
        ({
            let c = cuts(h, tall, from);
            &&& from < h ==> c.len() > 0 && c[0].0 == from && c.last().0 + c.last().1 == h
            &&& from == h ==> c.len() == 0
            &&& forall|k: int|
                0 <= k < c.len() ==> 0 < (#[trigger] c[k]).1 <= tall && from <= c[k].0 && c[k].0
                    + c[k].1 <= h
            &&& forall|k: int, l: int|
                0 <= k && l == k + 1 && l < c.len() ==> (#[trigger] c[k]).0 + c[k].1 == (
                #[trigger] c[l]).0
        }),
    decreases h - from,
{
    if from < h {
        let piece = capped(h - from, tall);
        law_cuts_cover(h, tall, from + piece);
        let c = cuts(h, tall, from);
        let rest = cuts(h, tall, from + piece);
        assert forall|k: int| 0 <= k < c.len() implies 0 < (#[trigger] c[k]).1 <= tall && from
            <= c[k].0 && c[k].0 + c[k].1 <= h by {
            if k > 0 {
                assert(c[k] == rest[k - 1]);
            }
        }
        assert forall|k: int, l: int| 0 <= k && l == k + 1 && l < c.len() implies (
        #[trigger] c[k]).0 + c[k].1 == (#[trigger] c[l]).0 by {
            assert(c[l] == rest[l - 1]);
            if k > 0 {
                assert(c[k] == rest[k - 1]);
            }
        }
        if rest.len() > 0 {
            assert(c.last() == rest.last());
        }
    }
}

/// Every slice but the last is as tall as asked.
pub proof fn law_cuts_are_full(h: int, tall: int, from: int, k: int)
    requires
        0 <= from <= h <= u32::MAX,
        0 < tall,
        0 <= k < cuts(h, tall, from).len() - 1,
    ensures
        cuts(h, tall, from)[k].1 == tall,
        cuts(h, tall, from)[k].0 == from + k * tall,
    decreases h - from,
{
    let piece = capped(h - from, tall);
    let rest = cuts(h, tall, from + piece);
    law_cuts_cover(h, tall, from + piece);
    assert(rest.len() > 0);
    assert(piece == tall);
    if k > 0 {
        law_cuts_are_full(h, tall, from + piece, k - 1);
        assert(from + piece + (k - 1) * tall == from + k * tall) by (nonlinear_arith)
            requires
                piece == tall,
        ;
    } else {
        assert(k * tall == 0) by (nonlinear_arith)
            requires
                k == 0,
        ;
    }
}

/// A number to the nearest is within half of what it came from.
proof fn lemma_nearest_near(a: int, b: int)
    requires
        0 < b,
    ensures
        2 * (nearest(a, b) * b - a) <= b,
        2 * (a - nearest(a, b) * b) <= b,
{
    let q = nearest(a, b);
    lemma_quotient(2 * a + b, 2 * b);
    assert(2 * (q * b - a) <= b && 2 * (a - q * b) <= b) by (nonlinear_arith)
        requires
            q * (2 * b) <= 2 * a + b < (q + 1) * (2 * b),
    ;
}

/// Two sides scaled by the same fraction keep their ratio, to a pixel's rounding.
pub proof fn lemma_sides_keep_ratio(w: int, h: int, num: int, den: int)
    requires
        0 < w,
        0 < h,
        0 < num,
        0 < den,
        nearest(w * num, den) <= u32::MAX,
        nearest(h * num, den) <= u32::MAX,
    ensures
        scaled(w, num, den) * h - scaled(h, num, den) * w <= w + h,
        scaled(h, num, den) * w - scaled(w, num, den) * h <= w + h,
{
    let (a, b) = (nearest(w * num, den), nearest(h * num, den));
    lemma_nearest_near(w * num, den);
    lemma_nearest_near(h * num, den);
    let (x, y) = (a * den - w * num, b * den - h * num);
    // a * h * den - b * w * den == x * h - y * w
    assert((a * h - b * w) * den == x * h - y * w) by (nonlinear_arith)
        requires
            x == a * den - w * num,
            y == b * den - h * num,
    ;
    assert(2 * (x * h) <= den * h && 2 * (x * h) >= -(den * h)) by (nonlinear_arith)
        requires
            2 * x <= den,
            -(2 * x) <= den,
            0 < h,
    ;
    assert(2 * (y * w) <= den * w && 2 * (y * w) >= -(den * w)) by (nonlinear_arith)
        requires
            2 * y <= den,
            -(2 * y) <= den,
            0 < w,
    ;
    assert(2 * (a * h - b * w) <= w + h && 2 * (b * w - a * h) <= w + h) by (nonlinear_arith)
        requires
            2 * ((a * h - b * w) * den) <= den * h + den * w,
            2 * ((a * h - b * w) * den) >= -(den * h + den * w),
            0 < den,
    ;
    let (p, q) = (some(a), some(b));
    lemma_quotient(2 * (w * num) + den, 2 * den);
    lemma_quotient(2 * (h * num) + den, 2 * den);
    assert(0 <= w * num && 0 <= h * num) by (nonlinear_arith)
        requires
            0 < w,
            0 < h,
            0 < num,
    ;
    assert(0 <= a && 0 <= b);
    if a == 0 || b == 0 {
        lemma_small_sides(w, h, a, b, p, q);
    }
}

/// A side of less than half a pixel is drawn as one.
proof fn lemma_small_sides(w: int, h: int, a: int, b: int, p: int, q: int)
    requires
        0 < w,
        0 < h,
        0 <= a,
        0 <= b,
        p == some(a),
        q == some(b),
        2 * (a * h - b * w) <= w + h,
        2 * (b * w - a * h) <= w + h,
    ensures
        p * h - q * w <= w + h,
        q * w - p * h <= w + h,
{
    if a == 0 && b == 0 {
        assert(p * h == h && q * w == w) by (nonlinear_arith)
            requires
                p == 1,
                q == 1,
        ;
    } else if a == 0 {
        assert(a * h == 0 && p * h == h) by (nonlinear_arith)
            requires
                a == 0,
                p == 1,
        ;
        assert(b * w >= w) by (nonlinear_arith)
            requires
                b >= 1,
                w > 0,
        ;
    } else if b == 0 {
        assert(b * w == 0 && q * w == w) by (nonlinear_arith)
            requires
                b == 0,
                q == 1,
        ;
        assert(a * h >= h) by (nonlinear_arith)
            requires
                a >= 1,
                h > 0,
        ;
    }
}

/// A picture keeps its aspect ratio to a pixel's rounding, whichever side of the space limits it and
/// whatever it is asked to fill, as long as neither side comes to more than a picture can have.
pub proof fn law_fit_keeps_the_aspect(img_w: u32, img_h: u32, b: Budget)
    requires
        img_w > 0,
        img_h > 0,
        fitted(img_w, img_h, b).0 < u32::MAX,
        fitted(img_w, img_h, b).1 < u32::MAX,
    ensures
        ({
            let (w, h) = fitted(img_w, img_h, b);
            &&& w * img_h - h * img_w <= img_w + img_h
            &&& h * img_w - w * img_h <= img_w + img_h
        }),
{
    let (w, h) = (img_w as int, img_h as int);
    let (aw, ah) = (b.wide(), b.tall());
    assert(w * h == h * w) by (nonlinear_arith);
    if !b.upscale && !b.fill_width && !b.fill_height && aw >= w && ah >= h {
    } else if by_width(w, h, b) {
        lemma_sides_keep_ratio(w, h, aw, w);
    } else {
        lemma_sides_keep_ratio(w, h, ah, h);
    }
}

/// A picture that fits is left alone unless it is asked to grow, and one that is asked to fill a side,
/// or both, covers it: the width where it fills the width, the height where it fills the height, and
/// both where it fills both. One that may grow reaches the space there is one way.
pub proof fn law_fit_fills_what_it_is_asked_to(img_w: u32, img_h: u32, b: Budget)
    requires
        img_w > 0,
        img_h > 0,
        b.wide() <= u32::MAX,
        b.tall() <= u32::MAX,
    ensures
        ({
            let (w, h) = fitted(img_w, img_h, b);
            &&& !b.upscale && !b.fill_width && !b.fill_height && b.wide() >= img_w && b.tall() >= img_h
                ==> (w, h) == (img_w, img_h)
            &&& b.fill_width && !b.fill_height ==> w == b.wide()
            &&& b.fill_height && !b.fill_width ==> h == b.tall()
            &&& b.fill_width && b.fill_height ==> w >= b.wide() && h >= b.tall() && (w == b.wide()
                || h == b.tall())
            &&& b.upscale || b.fill_width || b.fill_height ==> w == b.wide() || h == b.tall()
        }),
{
    let (w, h) = (img_w as int, img_h as int);
    let (aw, ah) = (b.wide(), b.tall());
    lemma_nearest_same(w, aw);
    lemma_nearest_same(h, ah);
    if by_width(w, h, b) {
        assert(h * aw == aw * h) by (nonlinear_arith);
        if b.fill_width && b.fill_height {
            lemma_nearest_reaches(h * aw, w, ah);
        }
    } else {
        assert(w * ah == ah * w) by (nonlinear_arith);
        if b.fill_width && b.fill_height {
            lemma_nearest_reaches(w * ah, h, aw);
        }
    }
}

proof fn lemma_nearest_reaches(a: int, den: int, lo: int)
    requires
        0 < den,
        lo * den <= a,
    ensures
        lo <= nearest(a, den),
{
    assert(lo <= (2 * a + den) / (2 * den)) by (nonlinear_arith)
        requires
            0 < den,
            lo * den <= a,
    ;
}

/// What is scaled is scaled: a side times a fraction is within half a pixel of the product, unless that
/// is less than a pixel or more than a side can have, and a whole scaled by itself stays.
pub proof fn law_scaled_is_the_product(n: int, num: int, den: int)
    requires
        0 <= n <= u32::MAX,
        0 < den,
        0 <= num,
    ensures
        ({
            let r = scaled(n, num, den);
            &&& r >= 1
            &&& den <= n * num <= u32::MAX * den ==> 2 * (r * den - n * num) <= den && 2 * (n * num - r
                * den) <= den
            &&& n * num < den ==> r == 1
            &&& num == den && n >= 1 ==> r == n
        }),
{
    let q = nearest(n * num, den);
    lemma_nearest_near(n * num, den);
    lemma_quotient(2 * (n * num) + den, 2 * den);
    if den <= n * num {
        lemma_nearest_reaches(n * num, den, 1);
    }
    if n * num <= u32::MAX * den {
        assert(q <= u32::MAX) by (nonlinear_arith)
            requires
                q * (2 * den) <= 2 * (n * num) + den,
                n * num <= u32::MAX * den,
                0 < den,
        ;
    }
    if n * num < den {
        assert(q <= 1) by (nonlinear_arith)
            requires
                q * (2 * den) <= 2 * (n * num) + den,
                n * num < den,
                0 < den,
        ;
    }
    if num == den {
        assert(n * num == den * n) by (nonlinear_arith)
            requires
                num == den,
        ;
        lemma_nearest_same(den, n);
    }
}

/// How many times too large a picture is, is how many times its longer side is, and never less than once.
pub proof fn law_the_longer_side_decides(w: u32, h: u32, cap: u32, r: (u32, u32))
    requires
        cap > 0,
        call_ensures(over_cap, (w, h, cap), r),
    ensures
        r.1 == cap,
        w <= cap && h <= cap ==> r.0 == cap,
        w > cap && w >= h ==> r.0 == w,
        h > cap && h >= w ==> r.0 == h,
{
}

/// A coarser cell keeps its shape, and is as tall as it may be: one pixel more would be too fine.
pub proof fn law_a_coarser_cell_keeps_its_shape(c: CellSize, num: u32, den: u32, r: Coarse)
    requires
        den > 0,
        c.h > 0,
        call_ensures(CellSize::coarser, (c, num, den), r),
    ensures
        r.w.0 * c.h == (c.w * r.h) * r.w.1,
        r.per.0 * r.h == r.per.1 * c.h,
        num <= den ==> r.h == c.h,
        num > den && r.h > 1 ==> r.h * num <= c.h * den < (r.h + 1) * num,
{
    assert(r.per.0 * r.h == r.per.1 * c.h) by (nonlinear_arith)
        requires
            r.per.0 == c.h,
            r.per.1 == r.h,
    ;
}

} // verus!
