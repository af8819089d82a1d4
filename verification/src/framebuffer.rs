//! Pictures as bytes: four to a pixel, red, green, blue and alpha, row after row.

use vstd::arithmetic::mul::{lemma_mul_inequality, lemma_mul_is_distributive_add, lemma_mul_nonnegative};
use vstd::prelude::*;

verus! {

/// A picture.
#[derive(Debug)]
pub struct Framebuffer {
    pub w: u32,
    pub h: u32,
    pub px: Vec<u8>,
}

impl Framebuffer {
    /// As many bytes as the picture has channels.
    pub open spec fn wf(self) -> bool {
        self.px@.len() == 4 * (self.w * self.h)
    }

    /// A picture with every byte zero.
    pub fn new(w: u32, h: u32) -> (r: Self)
        requires
            4 * (w * h) <= isize::MAX,
        ensures
            r.wf(),
            r.w == w,
            r.h == h,
            forall|i: int| 0 <= i < r.px@.len() ==> r.px@[i] == 0,
    {
        assert(0 <= w * h) by {
            lemma_mul_nonnegative(w as int, h as int);
        }
        let n: usize = w as usize * h as usize * 4;
        let mut px: Vec<u8> = Vec::new();
        px.resize(n, 0);
        Framebuffer { w, h, px }
    }

    /// The picture that `px` holds, if it is as many bytes as that takes.
    pub fn from_raw(w: u32, h: u32, px: Vec<u8>) -> (r: Option<Self>)
        ensures
            r is Some == (px@.len() == 4 * (w * h)),
            r matches Some(fb) ==> fb.wf() && fb.w == w && fb.h == h && fb.px == px,
    {
        assert(0 <= w * h <= 0xffff_ffff * 0xffff_ffff) by (nonlinear_arith)
            requires
                0 <= w <= 0xffff_ffff,
                0 <= h <= 0xffff_ffff,
        ;
        let n: u128 = w as u128 * h as u128 * 4;
        if px.len() as u128 == n {
            Some(Framebuffer { w, h, px })
        } else {
            None
        }
    }

    /// Its width, in pixels.
    pub fn width(&self) -> (r: u32)
        ensures
            r == self.w,
    {
        self.w
    }

    /// Its height, in pixels.
    pub fn height(&self) -> (r: u32)
        ensures
            r == self.h,
    {
        self.h
    }

    /// Its bytes.
    pub fn as_raw(&self) -> (r: &Vec<u8>)
        ensures
            *r == self.px,
    {
        &self.px
    }

    /// A picture of the same size and bytes.
    pub fn duplicate(&self) -> (r: Self)
        requires
            self.wf(),
        ensures
            r.wf(),
            r.w == self.w,
            r.h == self.h,
            r.px@ == self.px@,
    {
        let mut px: Vec<u8> = Vec::new();
        px.extend_from_slice(self.px.as_slice());
        assert(px@ =~= self.px@);
        Framebuffer { w: self.w, h: self.h, px }
    }

    /// The rows from `y` on, `h` of them.
    pub fn rows(&self, y: u32, h: u32) -> (r: Self)
        requires
            self.wf(),
            y + h <= self.h,
        ensures
            r.wf(),
            r.w == self.w,
            r.h == h,
            r.px@ == self.px@.subrange(4 * (self.w * y), 4 * (self.w * (y + h))),
    {
        let n: usize = self.px.len();
        proof {
            lemma_mul_nonnegative(self.w as int, y as int);
            lemma_mul_inequality(y as int, self.h as int, self.w as int);
            lemma_mul_inequality(y + h, self.h as int, self.w as int);
            lemma_mul_inequality(y as int, y + h, self.w as int);
            lemma_mul_is_distributive_add(self.w as int, y as int, h as int);
            assert(y * self.w == self.w * y) by (nonlinear_arith);
            assert((y + h) * self.w == self.w * (y + h)) by (nonlinear_arith);
            assert(self.h * self.w == self.w * self.h) by (nonlinear_arith);
        }
        let from: usize = self.w as usize * y as usize * 4;
        let to: usize = self.w as usize * (y as usize + h as usize) * 4;
        let mut px: Vec<u8> = Vec::new();
        px.extend_from_slice(vstd::slice::slice_subrange(self.px.as_slice(), from, to));
        assert(px@ =~= self.px@.subrange(from as int, to as int));
        Framebuffer { w: self.w, h, px }
    }
}

/// `image::imageops::resize` with the Lanczos filter, of a picture and to a size whose sides single
/// precision counts exactly and whose intermediate fits in memory. The result has the asked size.
/// Its pixels come out of the machine's floating point and are not stated.
#[verifier::external_body]
fn lanczos(fb: &Framebuffer, w: u32, h: u32) -> (r: Framebuffer)
    requires
        fb.wf(),
        resizable(*fb, w, h),
    ensures
        r.wf(),
        r.w == w,
        r.h == h,
{
    let src = image::RgbaImage::from_raw(fb.w, fb.h, fb.px.clone()).unwrap();
    let to = image::imageops::resize(&src, w, h, image::imageops::FilterType::Lanczos3);
    Framebuffer { w: to.width(), h: to.height(), px: to.into_raw() }
}

/// Whether a picture can be resampled to `w` by `h` pixels: single precision counts every side, and
/// what comes in between fits in memory.
//
// past what single precision counts, the sampler's weights can
// add up to zero and dividing by that has no pixel for a result
pub open spec fn resizable(fb: Framebuffer, w: u32, h: u32) -> bool {
    &&& fb.w <= 0x0100_0000 && fb.h <= 0x0100_0000 && w <= 0x0100_0000 && h <= 0x0100_0000
    &&& 16 * (fb.w * h) <= isize::MAX
    &&& 4 * (w * h) <= isize::MAX
}

/// Whether a picture can be scaled to `w` by `h` pixels: it has that size, or can be resampled to it.
pub open spec fn scalable(fb: Framebuffer, w: u32, h: u32) -> bool {
    (fb.w == w && fb.h == h) || resizable(fb, w, h)
}

/// Whether a picture can be scaled to `w` by `h` pixels.
pub fn can_resize(fb: &Framebuffer, w: u32, h: u32) -> (r: bool)
    ensures
        r == scalable(*fb, w, h),
{
    if fb.w == w && fb.h == h {
        return true;
    }
    if fb.w > 0x0100_0000 || fb.h > 0x0100_0000 || w > 0x0100_0000 || h > 0x0100_0000 {
        return false;
    }
    assert(0 <= fb.w * h <= 0x0100_0000 * 0x0100_0000) by (nonlinear_arith)
        requires
            0 <= fb.w <= 0x0100_0000,
            0 <= h <= 0x0100_0000,
    ;
    assert(0 <= w * h <= 0x0100_0000 * 0x0100_0000) by (nonlinear_arith)
        requires
            0 <= w <= 0x0100_0000,
            0 <= h <= 0x0100_0000,
    ;
    let between: u64 = 16 * (fb.w as u64 * h as u64);
    let after: u64 = 4 * (w as u64 * h as u64);
    between <= isize::MAX as u64 && after <= isize::MAX as u64
}

/// Whether `r` is what the sampler makes of a picture at `w` by `h` pixels.
pub closed spec fn resampled(fb: Framebuffer, w: u32, h: u32, r: Framebuffer) -> bool {
    call_ensures(lanczos, (&fb, w, h), r)
}

/// Scale `fb` to exactly `w` by `h` pixels. A picture that has the size already stays as it is.
pub fn resize(fb: &Framebuffer, w: u32, h: u32) -> (r: Framebuffer)
    requires
        fb.wf(),
        scalable(*fb, w, h),
    ensures
        r.wf(),
        r.w == w,
        r.h == h,
        fb.w == w && fb.h == h ==> r.px@ == fb.px@,
        !(fb.w == w && fb.h == h) ==> resampled(*fb, w, h, r),
{
    if fb.w == w && fb.h == h {
        return fb.duplicate();
    }
    lanczos(fb, w, h)
}

/// A channel of value `c` and coverage `a` over a background channel `b`.
pub open spec fn over(c: u8, a: u8, b: u8) -> u8 {
    ((c * a + b * (255 - a)) / 255) as u8
}

/// The byte at `i`, a channel of its pixel, once the picture lies over an opaque background.
pub open spec fn flat_channel(px: Seq<u8>, bg: Seq<u8>, i: int) -> u8 {
    let a = px[i / 4 * 4 + 3];
    if a == 255 {
        px[i]
    } else if i % 4 == 3 {
        255
    } else {
        over(px[i], a, bg[i % 4])
    }
}

/// A picture's bytes over an opaque background.
pub open spec fn flat(px: Seq<u8>, bg: Seq<u8>) -> Seq<u8> {
    Seq::new(px.len(), |i: int| flat_channel(px, bg, i))
}

/// One channel over a background.
fn blend(c: u8, a: u8, b: u8) -> (r: u8)
    ensures
        r == over(c, a, b),
{
    assert(0 <= c * a + b * (255 - a) <= 255 * 255) by (nonlinear_arith)
        requires
            0 <= c <= 255,
            0 <= a <= 255,
            0 <= b <= 255,
    ;
    assert(0 <= c * a && 0 <= b * (255 - a)) by (nonlinear_arith)
        requires
            0 <= c <= 255,
            0 <= a <= 255,
            0 <= b <= 255,
    ;
    ((c as u32 * a as u32 + b as u32 * (255 - a as u32)) / 255) as u8
}

/// Composite `fb` over an opaque background, discarding per-pixel alpha.
pub fn flatten_onto(fb: &mut Framebuffer, bg: [u8; 3])
    requires
        old(fb).wf(),
    ensures
        final(fb).wf(),
        final(fb).w == old(fb).w,
        final(fb).h == old(fb).h,
        final(fb).px@ == flat(old(fb).px@, bg@),
{
    let ghost before = fb.px@;
    let n: usize = fb.px.len();
    let mut i: usize = 0;
    while i < n
        invariant
            n == before.len() == fb.px@.len(),
            n % 4 == 0,
            i % 4 == 0,
            i <= n,
            fb.w == old(fb).w,
            fb.h == old(fb).h,
            forall|j: int| 0 <= j < i ==> #[trigger] fb.px@[j] == flat_channel(before, bg@, j),
            forall|j: int| i <= j < n ==> #[trigger] fb.px@[j] == before[j],
        decreases n - i,
    {
        let a: u8 = fb.px[i + 3];
        if a != 255 {
            let r: u8 = blend(fb.px[i], a, bg[0]);
            let g: u8 = blend(fb.px[i + 1], a, bg[1]);
            let b: u8 = blend(fb.px[i + 2], a, bg[2]);
            fb.px.set(i, r);
            fb.px.set(i + 1, g);
            fb.px.set(i + 2, b);
            fb.px.set(i + 3, 255);
        }
        i += 4;
    }
}

/// Flattening leaves nothing to see through: every pixel is opaque afterwards, and one that was
/// opaque before keeps its colour.
pub proof fn law_flat_is_opaque(px: Seq<u8>, bg: Seq<u8>, i: int)
    requires
        0 <= i < px.len(),
        px.len() % 4 == 0,
    ensures
        i % 4 == 3 ==> flat_channel(px, bg, i) == 255,
        px[i / 4 * 4 + 3] == 255 ==> flat_channel(px, bg, i) == px[i],
        px[i / 4 * 4 + 3] == 0 && i % 4 != 3 ==> flat_channel(px, bg, i) == bg[i % 4],
{
    if px[i / 4 * 4 + 3] == 0 && i % 4 != 3 {
        assert(px[i] * 0 == 0) by (nonlinear_arith);
    }
}

/// A premultiplied channel `c` of coverage `a`, made straight: divided by the coverage, to the nearest
/// whole, and full at most.
pub open spec fn straight_channel(c: u8, a: u8) -> u8 {
    if a == 0 || a == 255 {
        c
    } else {
        let n = (c * 255 + a / 2) / a as int;
        if n > 255 {
            255
        } else {
            n as u8
        }
    }
}

/// Premultiplied pixels, made straight.
pub open spec fn straight(px: Seq<u8>) -> Seq<u8> {
    Seq::new(
        px.len(),
        |i: int|
            if i % 4 == 3 || i - i % 4 + 3 >= px.len() {
                px[i]
            } else {
                straight_channel(px[i], px[i - i % 4 + 3])
            },
    )
}

fn unmultiply(c: u8, a: u8) -> (r: u8)
    ensures
        r == straight_channel(c, a),
{
    if a == 0 || a == 255 {
        return c;
    }
    let n: u32 = (c as u32 * 255 + a as u32 / 2) / a as u32;
    if n > 255 {
        255
    } else {
        n as u8
    }
}

/// Make premultiplied pixels straight.
//
// a rasterizer stores premultiplied alpha; the renderer and the
// compositor both expect straight alpha
pub fn straighten(px: &mut Vec<u8>)
    ensures
        final(px)@ == straight(old(px)@),
{
    let ghost before = px@;
    let n: usize = px.len() / 4;
    let mut k: usize = 0;
    while k < n
        invariant
            n == before.len() / 4,
            before.len() <= usize::MAX,
            k <= n,
            px@.len() == before.len(),
            forall|i: int| 0 <= i < 4 * k ==> #[trigger] px@[i] == straight(before)[i],
            forall|i: int| 4 * k <= i < px@.len() ==> #[trigger] px@[i] == before[i],
        decreases n - k,
    {
        let at: usize = 4 * k;
        let a: u8 = px[at + 3];
        let (r, g, b) = (px[at], px[at + 1], px[at + 2]);
        px.set(at, unmultiply(r, a));
        px.set(at + 1, unmultiply(g, a));
        px.set(at + 2, unmultiply(b, a));
        k += 1;
    }
    assert(px@ =~= straight(before));
}

/// What is opaque stays as it is, and what is transparent too.
pub proof fn law_straight_keeps_ends(px: Seq<u8>, i: int)
    requires
        0 <= i < px.len(),
        i % 4 == 3 || i - i % 4 + 3 >= px.len() || px[i - i % 4 + 3] == 0 || px[i - i % 4 + 3]
            == 255,
    ensures
        straight(px)[i] == px[i],
{
}

/// A pixel that is seen through shows the background by as much: each of its colours is what its
/// coverage takes of it and the rest of the background's, rounded down, and lies between the two.
pub proof fn law_flat_mixes_by_coverage(px: Seq<u8>, bg: Seq<u8>, i: int)
    requires
        0 <= i < px.len(),
        px.len() % 4 == 0,
        bg.len() == 3,
        i % 4 != 3,
    ensures
        ({
            let (c, a, b) = (px[i] as int, px[i / 4 * 4 + 3] as int, bg[i % 4] as int);
            let r = flat(px, bg)[i] as int;
            &&& flat(px, bg).len() == px.len()
            &&& 255 * r <= c * a + b * (255 - a) < 255 * r + 255
            &&& c >= b ==> b <= r <= c
            &&& c <= b ==> c <= r <= b
        }),
{
    let (c, a, b) = (px[i] as int, px[i / 4 * 4 + 3] as int, bg[i % 4] as int);
    let mix = c * a + b * (255 - a);
    assert(0 <= mix <= 255 * 255) by (nonlinear_arith)
        requires
            mix == c * a + b * (255 - a),
            0 <= c <= 255,
            0 <= a <= 255,
            0 <= b <= 255,
    ;
    if a == 255 {
        assert(mix == 255 * c) by (nonlinear_arith)
            requires
                mix == c * a + b * (255 - a),
                a == 255,
        ;
    }
    if c >= b {
        assert(255 * b <= mix <= 255 * c) by (nonlinear_arith)
            requires
                mix == c * a + b * (255 - a),
                0 <= a <= 255,
                0 <= b <= c,
        ;
    } else {
        assert(255 * c <= mix <= 255 * b) by (nonlinear_arith)
            requires
                mix == c * a + b * (255 - a),
                0 <= a <= 255,
                0 <= c <= b,
        ;
    }
}

/// A colour that was dimmed by its coverage is brought back: what it is made, dimmed again, is what it
/// was, to the nearest. Coverage stays as it is.
pub proof fn law_straight_undoes_dimming(px: Seq<u8>, i: int)
    requires
        0 <= i < px.len(),
        px.len() % 4 == 0,
    ensures
        ({
            let r = straight(px)[i] as int;
            let (c, a) = (px[i] as int, px[i - i % 4 + 3] as int);
            &&& straight(px).len() == px.len()
            &&& i % 4 == 3 ==> r == c
            &&& i % 4 != 3 && 0 < a && c <= a ==> 2 * (r * a - 255 * c) <= a && 2 * (255 * c - r * a) <= a
            &&& i % 4 != 3 && 0 < a && c > a ==> r == 255 || a == 255
        }),
{
    let (c, a) = (px[i] as int, px[i - i % 4 + 3] as int);
    if i % 4 != 3 && 0 < a {
        let n = (c * 255 + a / 2) / a;
        assert(n * a <= c * 255 + a / 2 < (n + 1) * a) by (nonlinear_arith)
            requires
                n == (c * 255 + a / 2) / a,
                a > 0,
        ;
        assert((n + 1) * a == n * a + a) by (nonlinear_arith);
        if c <= a {
            assert(n <= 255) by (nonlinear_arith)
                requires
                    n * a <= c * 255 + a / 2,
                    c <= a,
                    a > 0,
            ;
            if a == 255 {
                assert(c * a == 255 * c) by (nonlinear_arith)
                    requires
                        a == 255,
                ;
            }
        } else {
            assert(n >= 255) by (nonlinear_arith)
                requires
                    c * 255 + a / 2 < (n + 1) * a,
                    c > a,
                    a > 0,
            ;
        }
    }
}

/// The rows of a picture are its own, from the one asked for on.
pub proof fn law_rows_are_the_pictures_own(fb: Framebuffer, y: u32, h: u32, r: Framebuffer, i: int)
    requires
        fb.wf(),
        y + h <= fb.h,
        call_ensures(Framebuffer::rows, (&fb, y, h), r),
        0 <= i < r.px@.len(),
    ensures
        r.w == fb.w,
        r.h == h,
        r.px@.len() == 4 * (fb.w * h),
        r.px@[i] == fb.px@[4 * (fb.w * y) + i],
{
    let (w, a, b, t) = (fb.w as int, y as int, y + h, fb.h as int);
    assert(0 <= w * a <= w * b <= w * t) by (nonlinear_arith)
        requires
            0 <= w,
            0 <= a <= b <= t,
    ;
}

} // verus!
