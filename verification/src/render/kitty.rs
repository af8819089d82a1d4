//! The Kitty graphics protocol.

use vstd::prelude::*;

use crate::framebuffer::Framebuffer;
use crate::render::base64;
use crate::text;
use crate::text::{push_dec, push_int};

verus! {

// the protocol caps a chunk's base64 payload at 4096 characters; 3072 raw
// bytes encode to exactly that, and being a multiple of 3 it also keeps
// padding out of every chunk but the last
pub const RAW_CHUNK: usize = 3072;

/// The placement slot every interactive redraw reuses.
//
// an image id and placement id together name a placement, and re-sending one
// with both the same replaces it in place. the spec calls this out as the way
// to move or resize a placement without flicker, which is why the viewer
// never deletes before drawing
pub const PLACEMENT: u32 = 1;

/// Where to take pixels from a stored image, and how large to draw them.
#[derive(Clone, Copy, Debug, PartialEq, Eq, Structural)]
pub struct Placement {
    /// Left edge of the source rectangle, in image pixels.
    pub src_x: u32,
    /// Top edge of the source rectangle, in image pixels.
    pub src_y: u32,
    /// Width of the source rectangle, in image pixels.
    pub src_w: u32,
    /// Height of the source rectangle, in image pixels.
    pub src_h: u32,
    /// Where the image sits relative to the terminal's text.
    //
    // negative puts it under the text layer, which is what
    // lets the viewer write over the page without touching a
    // pixel of it
    pub z: i32,
    /// Width of the destination box, in terminal cells.
    pub cols: u32,
    /// Height of the destination box, in terminal cells.
    pub rows: u32,
}

/// A framebuffer compressed and ready to be written out.
#[derive(Debug)]
pub struct Encoded {
    /// Width of the image, in pixels.
    pub w: u32,
    /// Height of the image, in pixels.
    pub h: u32,
    /// The pixels, compressed.
    pub payload: Vec<u8>,
}

/// How much the terminal reports back about a transmission.
#[derive(Clone, Copy, Debug, PartialEq, Eq, Structural)]
pub enum Quiet {
    /// q=2: no reply at all.
    //
    // this suppresses failures as well as acknowledgements,
    // so a refused image leaves an empty screen and no reason
    // for it; only use it where nothing will read the reply
    Fully,
    /// q=1: failures only.
    ErrorsOnly,
}

impl Quiet {
    pub open spec fn level(self) -> nat {
        match self {
            Quiet::Fully => 2,
            Quiet::ErrorsOnly => 1,
        }
    }

    fn code(self) -> (r: u64)
        ensures
            r == self.level(),
    {
        match self {
            Quiet::Fully => 2,
            Quiet::ErrorsOnly => 1,
        }
    }
}

/// `data` as `flate2` compresses it for speed, in zlib's format.
pub uninterp spec fn zlib_fast(data: Seq<u8>) -> Seq<u8>;

/// What a zlib decoder makes of a stream.
pub uninterp spec fn unzlib(stream: Seq<u8>) -> Seq<u8>;

/// `flate2::write::ZlibEncoder` at `Compression::fast`, given all of `data` and finished. The stream
/// is a function of the data, and a decoder gives the data back. Writing to a vector does not fail.
#[verifier::external_body]
fn zlib(data: &[u8]) -> (r: Vec<u8>)
    ensures
        r@ == zlib_fast(data@),
        unzlib(r@) == data@,
{
    let mut z = flate2::write::ZlibEncoder::new(Vec::new(), flate2::Compression::fast());
    std::io::Write::write_all(&mut z, data).unwrap();
    z.finish().unwrap()
}

/// Compress `fb` into the payload a transmission carries.
pub fn encode(fb: &Framebuffer) -> (r: Encoded)
    ensures
        r.w == fb.w,
        r.h == fb.h,
        r.payload@ == zlib_fast(fb.px@),
        unzlib(r.payload@) == fb.px@,
{
    Encoded { w: fb.w, h: fb.h, payload: zlib(fb.px.as_slice()) }
}

/// What a transmission does with the image: store it, or show it at the cursor, at its own size or
/// in a box of cells.
//
// C=1 stops the terminal advancing the cursor itself. its
// default, C=0, moves right by the placement's columns and down
// by its rows, and the spec leaves the result undefined once
// that runs past the edge of the screen. the caller places the
// cursor instead, which it can do deterministically
pub open spec fn action(display: bool, cells: Option<(u32, u32)>) -> Seq<char> {
    if !display {
        "t"@
    } else {
        match cells {
            None => "T,C=1"@,
            Some((c, r)) => "T,C=1,c="@ + text::dec(c as nat) + ",r="@ + text::dec(r as nat),
        }
    }
}

/// The flag that says whether another chunk follows.
pub open spec fn flag(more: bool) -> Seq<char> {
    if more {
        "1"@
    } else {
        "0"@
    }
}

/// What is said of an image that is sent: its size, its name, what becomes of it, what is replied.
pub struct Sending {
    pub w: u32,
    pub h: u32,
    pub id: u32,
    pub display: bool,
    pub cells: Option<(u32, u32)>,
    pub quiet: Quiet,
}

/// The header of the first chunk.
pub open spec fn first_header(s: Sending, more: bool) -> Seq<char> {
    "\x1b_Ga="@ + action(s.display, s.cells) + ",i="@ + text::dec(s.id as nat) + ",q="@ + text::dec(
        s.quiet.level(),
    ) + ",f=32,o=z,s="@ + text::dec(s.w as nat) + ",v="@ + text::dec(s.h as nat) + ",m="@ + flag(
        more,
    ) + ";"@
}

/// The header of every other chunk.
pub open spec fn next_header(s: Sending, more: bool) -> Seq<char> {
    "\x1b_Gq="@ + text::dec(s.quiet.level()) + ",m="@ + flag(more) + ";"@
}

/// How many chunks a payload of `len` bytes takes.
pub open spec fn chunk_count(len: nat) -> nat {
    (len + 3071) / 3072
}

/// The bytes of a payload's chunk `k`: full, but for the last.
pub open spec fn chunk(payload: Seq<u8>, k: int) -> Seq<u8> {
    payload.subrange(
        k * 3072,
        if (k + 1) * 3072 < payload.len() {
            (k + 1) * 3072
        } else {
            payload.len() as int
        },
    )
}

/// The command that carries chunk `k`: a header, the chunk in base 64, the terminator.
pub open spec fn command(s: Sending, payload: Seq<u8>, k: int) -> Seq<char> {
    let more = k + 1 < chunk_count(payload.len());
    let header = if k == 0 {
        first_header(s, more)
    } else {
        next_header(s, more)
    };
    header + base64::base64_of(chunk(payload, k)) + "\x1b\\"@
}

/// The first `n` commands of a transmission.
pub open spec fn commands(s: Sending, payload: Seq<u8>, n: nat) -> Seq<char>
    decreases n,
{
    if n == 0 {
        seq![]
    } else {
        commands(s, payload, (n - 1) as nat) + command(s, payload, n - 1)
    }
}

/// A whole transmission.
pub open spec fn transmission(s: Sending, payload: Seq<u8>) -> Seq<char> {
    commands(s, payload, chunk_count(payload.len()))
}

fn push_flag(out: &mut String, more: bool)
    ensures
        final(out)@ == old(out)@ + flag(more),
{
    if more {
        out.push_str("1");
    } else {
        out.push_str("0");
    }
}

fn push_action(out: &mut String, display: bool, cells: Option<(u32, u32)>)
    ensures
        final(out)@ == old(out)@ + action(display, cells),
{
    if !display {
        out.push_str("t");
        return;
    }
    match cells {
        None => {
            out.push_str("T,C=1");
        },

        // both given, the terminal letterboxes rather than
        // stretching, so rounding up to whole cells cannot
        // distort the picture
        Some((c, r)) => {
            out.push_str("T,C=1,c=");
            push_dec(out, c as u64);
            out.push_str(",r=");
            push_dec(out, r as u64);
        },
    }
    assert(out@ =~= old(out)@ + action(display, cells));
}

fn push_first_header(out: &mut String, s: &Sending, more: bool)
    ensures
        final(out)@ == old(out)@ + first_header(*s, more),
{
    out.push_str("\x1b_Ga=");
    push_action(out, s.display, s.cells);
    out.push_str(",i=");
    push_dec(out, s.id as u64);
    out.push_str(",q=");
    push_dec(out, s.quiet.code());
    out.push_str(",f=32,o=z,s=");
    push_dec(out, s.w as u64);
    out.push_str(",v=");
    push_dec(out, s.h as u64);
    out.push_str(",m=");
    push_flag(out, more);
    out.push_str(";");
    assert(out@ =~= old(out)@ + first_header(*s, more));
}

fn push_next_header(out: &mut String, s: &Sending, more: bool)
    ensures
        final(out)@ == old(out)@ + next_header(*s, more),
{
    out.push_str("\x1b_Gq=");
    push_dec(out, s.quiet.code());
    out.push_str(",m=");
    push_flag(out, more);
    out.push_str(";");
    assert(out@ =~= old(out)@ + next_header(*s, more));
}

/// Append the command that carries chunk `k`.
fn push_command(out: &mut String, s: &Sending, payload: &Vec<u8>, k: usize)
    requires
        k < chunk_count(payload@.len()),
    ensures
        final(out)@ == old(out)@ + command(*s, payload@, k as int),
{
    let len: usize = payload.len();
    let at: usize = k * RAW_CHUNK;
    let end: usize = if len - at > RAW_CHUNK {
        at + RAW_CHUNK
    } else {
        len
    };
    let more = end < len;
    if k == 0 {
        push_first_header(out, s, more);
    } else {
        push_next_header(out, s, more);
    }
    let data = vstd::slice::slice_subrange(payload.as_slice(), at, end);
    let coded = base64::encode(data);
    out.push_str(coded.as_str());
    out.push_str("\x1b\\");
    assert(more == (k + 1 < chunk_count(len as nat)));
    assert(data@ == chunk(payload@, k as int));
    assert(out@ =~= old(out)@ + command(*s, payload@, k as int));
}

/// Write an already-compressed image as the protocol's chunked escapes.
pub fn emit(
    out: &mut String,
    img: &Encoded,
    id: u32,
    display: bool,
    cells: Option<(u32, u32)>,
    quiet: Quiet,
)
    ensures
        final(out)@ == old(out)@ + transmission(
            (Sending { w: img.w, h: img.h, id, display, cells, quiet }),
            img.payload@,
        ),
{
    let s = Sending { w: img.w, h: img.h, id, display, cells, quiet };
    let len: usize = img.payload.len();
    let n: usize = len / RAW_CHUNK + if len % RAW_CHUNK > 0 {
        1
    } else {
        0
    };
    let mut k: usize = 0;
    assert(old(out)@ + Seq::<char>::empty() =~= old(out)@);
    while k < n
        invariant
            k <= n == chunk_count(img.payload@.len()),
            out@ == old(out)@ + commands(s, img.payload@, k as nat),
        decreases n - k,
    {
        let ghost before = out@;
        push_command(out, &s, &img.payload, k);
        assert(out@ =~= old(out)@ + commands(s, img.payload@, (k + 1) as nat));
        k += 1;
    }
}

/// The commands that carry an already-compressed image, to be stored and not shown, with failures
/// told.
pub fn parts(img: &Encoded, id: u32) -> (r: Vec<String>)
    ensures
        r@.len() == chunk_count(img.payload@.len()),
        forall|k: int|
            0 <= k < r@.len() ==> (#[trigger] r@[k])@ == command(
                (Sending {
                    w: img.w,
                    h: img.h,
                    id,
                    display: false,
                    cells: None,
                    quiet: Quiet::ErrorsOnly,
                }),
                img.payload@,
                k,
            ),
{
    let s = Sending {
        w: img.w,
        h: img.h,
        id,
        display: false,
        cells: None,
        quiet: Quiet::ErrorsOnly,
    };
    let len: usize = img.payload.len();
    let n: usize = len / RAW_CHUNK + if len % RAW_CHUNK > 0 {
        1
    } else {
        0
    };
    let mut out: Vec<String> = Vec::new();
    let mut k: usize = 0;
    while k < n
        invariant
            k <= n == chunk_count(img.payload@.len()),
            out@.len() == k,
            forall|j: int| 0 <= j < k ==> (#[trigger] out@[j])@ == command(s, img.payload@, j),
        decreases n - k,
    {
        let mut one = String::new();
        push_command(&mut one, &s, &img.payload, k);
        assert(one@ =~= command(s, img.payload@, k as int));
        out.push(one);
        k += 1;
    }
    out
}

/// Write `fb` as a Kitty graphics command that displays it at the cursor, scaled into `cells`
/// columns by rows where given.
//
// nothing reads the tty after the one-shot path writes,
// so an unread reply would land at the user's shell
pub fn write(out: &mut String, fb: &Framebuffer, id: u32, cells: Option<(u32, u32)>)
    ensures
        final(out)@ == old(out)@ + transmission(
            (Sending { w: fb.w, h: fb.h, id, display: true, cells, quiet: Quiet::Fully }),
            zlib_fast(fb.px@),
        ),
        unzlib(
            base64::unbase64(
                carried(
                    transmission(
                        (Sending { w: fb.w, h: fb.h, id, display: true, cells, quiet: Quiet::Fully
                        }),
                        zlib_fast(fb.px@),
                    ),
                ),
            ),
        ) == fb.px@,
{
    let img = encode(fb);
    proof {
        law_transmission_round_trips(
            Sending { w: fb.w, h: fb.h, id, display: true, cells, quiet: Quiet::Fully },
            img.payload@,
        );
    }
    emit(out, &img, id, true, cells, Quiet::Fully);
}

/// The escape that draws part of a stored image.
pub open spec fn placing(id: u32, p: Placement) -> Seq<char> {
    "\x1b_Ga=p,i="@ + text::dec(id as nat) + ",p="@ + text::dec(PLACEMENT as nat) + ",q=2,C=1,x="@
        + text::dec(p.src_x as nat) + ",y="@ + text::dec(p.src_y as nat) + ",w="@ + text::dec(
        p.src_w as nat,
    ) + ",h="@ + text::dec(p.src_h as nat) + ",c="@ + text::dec(p.cols as nat) + ",r="@ + text::dec(
        p.rows as nat,
    ) + ",z="@ + text::dec_int(p.z as int) + ";\x1b\\"@
}

/// Draw part of the image stored under `id` at the cursor, scaled into a box of `p.cols` by
/// `p.rows` cells.
pub fn place(out: &mut String, id: u32, p: &Placement)
    ensures
        final(out)@ == old(out)@ + placing(id, *p),
{
    out.push_str("\x1b_Ga=p,i=");
    push_dec(out, id as u64);
    out.push_str(",p=");
    push_dec(out, PLACEMENT as u64);
    out.push_str(",q=2,C=1,x=");
    push_dec(out, p.src_x as u64);
    out.push_str(",y=");
    push_dec(out, p.src_y as u64);
    out.push_str(",w=");
    push_dec(out, p.src_w as u64);
    out.push_str(",h=");
    push_dec(out, p.src_h as u64);
    out.push_str(",c=");
    push_dec(out, p.cols as u64);
    out.push_str(",r=");
    push_dec(out, p.rows as u64);
    out.push_str(",z=");
    push_int(out, p.z);
    out.push_str(";\x1b\\");
    assert(out@ =~= old(out)@ + placing(id, *p));
}

/// The block of image ids the one-shot renderer draws from.
//
// high and recognisable in a trace, and far from the low ids
// a client that has not thought about ids will pick: the
// block is deleted wholesale, so anything else inside it goes
// too
pub const PRINT_BASE: u32 = 0xC0DE_0000;

/// How many ids that block holds.
//
// one run's images all have to fit, and a run is one id per
// picture plus a few per document. so this is a file count,
// and a terminal runs out of memory for the pixels long
// before a million files run it out of ids
pub const PRINT_SPAN: u32 = 0x0010_0000;

/// The id for the one-shot renderer's `n`th image of a run.
pub fn print_id(n: u32) -> (r: u32)
    ensures
        r == PRINT_BASE + n % PRINT_SPAN,
        PRINT_BASE <= r < PRINT_BASE + PRINT_SPAN,
        r != 0,
{
    PRINT_BASE + n % PRINT_SPAN
}

/// The escape that drops a range of images and frees their pixels.
//
// d=R is the range form, and the capital frees the data
// rather than only dropping the placements
pub open spec fn forgetting_range(first: nat, last: nat) -> Seq<char> {
    "\x1b_Ga=d,d=R,x="@ + text::dec(first) + ",y="@ + text::dec(last) + ",q=2;\x1b\\"@
}

/// Drop every image the one-shot renderer left behind, freeing the pixels of any the scrollback no
/// longer refers to.
pub fn forget_prints(out: &mut String)
    ensures
        final(out)@ == old(out)@ + forgetting_range(
            PRINT_BASE as nat,
            (PRINT_BASE + PRINT_SPAN - 1) as nat,
        ),
{
    let last: u32 = PRINT_BASE + PRINT_SPAN - 1;
    out.push_str("\x1b_Ga=d,d=R,x=");
    push_dec(out, PRINT_BASE as u64);
    out.push_str(",y=");
    push_dec(out, last as u64);
    out.push_str(",q=2;\x1b\\");
    assert(out@ =~= old(out)@ + forgetting_range(
        PRINT_BASE as nat,
        (PRINT_BASE + PRINT_SPAN - 1) as nat,
    ));
}

/// The escape that drops one image and frees its pixels.
pub open spec fn forgetting(id: u32) -> Seq<char> {
    "\x1b_Ga=d,d=I,i="@ + text::dec(id as nat) + ",q=2;\x1b\\"@
}

/// Drop the image stored under `id` and free its pixel data.
pub fn forget(out: &mut String, id: u32)
    ensures
        final(out)@ == old(out)@ + forgetting(id),
{
    out.push_str("\x1b_Ga=d,d=I,i=");
    push_dec(out, id as u64);
    out.push_str(",q=2;\x1b\\");
    assert(out@ =~= old(out)@ + forgetting(id));
}

/// `x` turned left by `n` bits.
pub open spec fn rotated(x: u32, n: u32) -> u32 {
    (x << n) | (x >> ((32 - n) as u32))
}

/// The first id of a run, from when it started and which process it is.
//
// kitty stores a transmitted image under its id and
// re-renders every placement referring to that id when the
// data behind it changes, so a counter restarting at 1 each
// run repaints the images earlier runs left on screen, at
// the new image's size
//
// seconds alone collide between two runs inside the same
// second and the pid alone repeats within a boot, so mix
// both
pub fn base_id(secs: u32, nanos: u32, pid: u32) -> (r: u32)
    ensures
        r == rotated(secs, 11) ^ nanos ^ rotated(pid, 19),
{
    ((secs << 11) | (secs >> 21)) ^ nanos ^ ((pid << 19) | (pid >> 13))
}

/// How many ids there are. Zero means "unspecified" to the terminal, and is none.
pub const IDS: u64 = 0xffff_ffff;

/// The `n`th id of a run that began at `base`: the ids are counted round, and zero is passed over.
pub open spec fn nth_id(base: u32, n: int) -> u32 {
    let first = if base == 0 {
        0
    } else {
        base - 1
    };
    ((first + n) % IDS as int + 1) as u32
}

/// The `n`th image id of a run that began at `base`.
pub fn next_id(base: u32, n: u64) -> (r: u32)
    ensures
        r == nth_id(base, n as int),
        r != 0,
{
    let first: u64 = if base == 0 {
        0
    } else {
        base as u64 - 1
    };
    ((first + n % IDS) % IDS + 1) as u32
}

/// A run's ids are distinct and none is zero, as long as there are ids that it has not handed out.
pub proof fn law_ids_are_distinct(base: u32, n: int, m: int)
    requires
        0 <= n < m,
        m - n < IDS,
    ensures
        nth_id(base, n) != 0,
        nth_id(base, n) != nth_id(base, m),
{
    let first = if base == 0 {
        0
    } else {
        base - 1
    };
    let (a, b) = (first + n, first + m);
    assert(a % IDS as int != b % IDS as int);
}

/// Every id the one-shot renderer hands out lies in the block that is deleted, and two images of
/// one run share an id only where the run has filled the block.
pub proof fn law_print_ids(n: u32, m: u32)
    ensures
        PRINT_BASE <= PRINT_BASE + n % PRINT_SPAN <= PRINT_BASE + PRINT_SPAN - 1,
        PRINT_BASE + PRINT_SPAN - 1 <= u32::MAX,
        n < m && m - n < PRINT_SPAN ==> n % PRINT_SPAN != m % PRINT_SPAN,
{
}

/// Where a terminal stands in a stream of commands.
pub enum Reading {
    Outside,
    Escape,
    Header,
    Payload,
    Ending,
}

/// Where a terminal stands, and what payload it has been given.
pub struct Received {
    pub at: Reading,
    pub payload: Seq<char>,
}

/// A terminal reads on to the end of `t`: an escape and an underscore begin a command, a semicolon
/// ends its header, and what follows up to the next escape is payload. Another escape moves the
/// cursor, or clears or colours text.
pub open spec fn received(r: Received, t: Seq<char>) -> Received
    decreases t.len(),
{
    if t.len() == 0 {
        r
    } else {
        let s = received(r, t.drop_last());
        let c = t.last();
        match s.at {
            Reading::Outside => if c == '\u{1b}' {
                Received { at: Reading::Escape, ..s }
            } else {
                s
            },
            Reading::Escape => if c == '_' {
                Received { at: Reading::Header, ..s }
            } else {
                Received { at: Reading::Outside, ..s }
            },
            Reading::Header => if c == ';' {
                Received { at: Reading::Payload, ..s }
            } else {
                s
            },
            Reading::Payload => if c == '\u{1b}' {
                Received { at: Reading::Ending, ..s }
            } else {
                Received { payload: s.payload.push(c), ..s }
            },
            Reading::Ending => Received { at: Reading::Outside, ..s },
        }
    }
}

/// The payload of all the commands in `t`, end to end.
pub open spec fn carried(t: Seq<char>) -> Seq<char> {
    received(Received { at: Reading::Outside, payload: seq![] }, t).payload
}

proof fn lemma_received_joins(r: Received, a: Seq<char>, b: Seq<char>)
    ensures
        received(r, a + b) == received(received(r, a), b),
    decreases b.len(),
{
    if b.len() == 0 {
        assert(a + b =~= a);
    } else {
        assert((a + b).drop_last() =~= a + b.drop_last());
        lemma_received_joins(r, a, b.drop_last());
    }
}

/// Whether `t` could stand in a header.
spec fn in_header(t: Seq<char>) -> bool {
    forall|i: int| 0 <= i < t.len() ==> t[i] != ';'
}

proof fn lemma_header_part(r: Received, t: Seq<char>)
    requires
        r.at is Header,
        in_header(t),
    ensures
        received(r, t) == r,
    decreases t.len(),
{
    if t.len() > 0 {
        assert(in_header(t.drop_last()));
        lemma_header_part(r, t.drop_last());
    }
}

proof fn lemma_payload_part(r: Received, t: Seq<char>)
    requires
        r.at is Payload,
        forall|i: int| 0 <= i < t.len() ==> t[i] != '\u{1b}',
    ensures
        received(r, t) == (Received { at: Reading::Payload, payload: r.payload + t }),
    decreases t.len(),
{
    if t.len() > 0 {
        lemma_payload_part(r, t.drop_last());
        assert((r.payload + t.drop_last()).push(t.last()) =~= r.payload + t);
    } else {
        assert(r.payload + t =~= r.payload);
    }
}

proof fn lemma_dec_in_header(n: nat)
    ensures
        in_header(text::dec(n)),
{
    text::lemma_dec(n);
    assert forall|i: int| 0 <= i < text::dec(n).len() implies text::dec(n)[i] != ';' by {
        assert(text::is_digit(text::dec(n)[i]));
    }
}

proof fn lemma_action_in_header(display: bool, cells: Option<(u32, u32)>)
    ensures
        in_header(action(display, cells)),
{
    reveal_strlit("t");
    reveal_strlit("T,C=1");
    reveal_strlit("T,C=1,c=");
    reveal_strlit(",r=");
    if let Some((c, r)) = cells {
        lemma_dec_in_header(c as nat);
        lemma_dec_in_header(r as nat);
    }
}

/// A header is an escape, then nothing that ends a header, then the semicolon that does.
proof fn lemma_first_header(s: Sending, more: bool, r: Received)
    requires
        r.at is Outside,
    ensures
        received(r, first_header(s, more)) == (Received { at: Reading::Payload, ..r }),
{
    reveal_strlit("\x1b_Ga=");
    reveal_strlit(",i=");
    reveal_strlit(",q=");
    reveal_strlit(",f=32,o=z,s=");
    reveal_strlit(",v=");
    reveal_strlit(",m=");
    reveal_strlit("0");
    reveal_strlit("1");
    reveal_strlit(";");
    lemma_action_in_header(s.display, s.cells);
    lemma_dec_in_header(s.id as nat);
    lemma_dec_in_header(s.quiet.level());
    lemma_dec_in_header(s.w as nat);
    lemma_dec_in_header(s.h as nat);
    let h = first_header(s, more);
    let body = "Ga="@ + action(s.display, s.cells) + ",i="@ + text::dec(s.id as nat) + ",q="@
        + text::dec(s.quiet.level()) + ",f=32,o=z,s="@ + text::dec(s.w as nat) + ",v="@ + text::dec(
        s.h as nat,
    ) + ",m="@ + flag(more);
    reveal_strlit("Ga=");
    assert("\x1b_Ga="@ =~= seq!['\u{1b}', '_'] + "Ga="@);
    assert(h =~= seq!['\u{1b}', '_'] + body + ";"@);
    assert(in_header(body));
    lemma_header(r, body, h);
}

proof fn lemma_next_header(s: Sending, more: bool, r: Received)
    requires
        r.at is Outside,
    ensures
        received(r, next_header(s, more)) == (Received { at: Reading::Payload, ..r }),
{
    reveal_strlit("\x1b_Gq=");
    reveal_strlit("Gq=");
    reveal_strlit(",m=");
    reveal_strlit("0");
    reveal_strlit("1");
    reveal_strlit(";");
    lemma_dec_in_header(s.quiet.level());
    let h = next_header(s, more);
    let body = "Gq="@ + text::dec(s.quiet.level()) + ",m="@ + flag(more);
    assert("\x1b_Gq="@ =~= seq!['\u{1b}', '_'] + "Gq="@);
    assert(h =~= seq!['\u{1b}', '_'] + body + ";"@);
    assert(in_header(body));
    lemma_header(r, body, h);
}

proof fn lemma_header(r: Received, body: Seq<char>, h: Seq<char>)
    requires
        r.at is Outside,
        in_header(body),
        h == seq!['\u{1b}', '_'] + body + ";"@,
    ensures
        received(r, h) == (Received { at: Reading::Payload, ..r }),
{
    reveal_strlit(";");
    let esc = seq!['\u{1b}', '_'];
    let opened = Received { at: Reading::Header, ..r };
    assert(esc.drop_last().drop_last() =~= seq![]);
    assert(received(r, esc.drop_last().drop_last()) == r);
    assert(received(r, esc.drop_last()) == (Received { at: Reading::Escape, ..r }));
    assert(received(r, esc) == opened);
    lemma_header_part(opened, body);
    lemma_received_joins(r, esc, body);
    assert(";"@.drop_last() =~= seq![]);
    assert(received(opened, ";"@.drop_last()) == opened);
    lemma_received_joins(r, esc + body, ";"@);
}

proof fn lemma_command(s: Sending, payload: Seq<u8>, k: int, r: Received)
    requires
        r.at is Outside,
    ensures
        received(r, command(s, payload, k)) == (Received {
            at: Reading::Outside,
            payload: r.payload + base64::base64_of(chunk(payload, k)),
        }),
{
    let more = k + 1 < chunk_count(payload.len());
    let header = if k == 0 {
        first_header(s, more)
    } else {
        next_header(s, more)
    };
    let data = base64::base64_of(chunk(payload, k));
    let end = "\x1b\\"@;
    lemma_first_header(s, more, r);
    lemma_next_header(s, more, r);
    let opened = Received { at: Reading::Payload, ..r };
    base64::lemma_base64_chars(chunk(payload, k));
    lemma_payload_part(opened, data);
    lemma_received_joins(r, header, data);
    let full = Received { at: Reading::Payload, payload: r.payload + data };
    lemma_end(full);
    lemma_received_joins(r, header + data, end);
}

proof fn lemma_end(r: Received)
    requires
        r.at is Payload,
    ensures
        received(r, "\x1b\\"@) == (Received { at: Reading::Outside, ..r }),
{
    let end = "\x1b\\"@;
    reveal_strlit("\x1b\\");
    assert(end.drop_last() =~= seq!['\u{1b}']);
    assert(end.drop_last().drop_last() =~= seq![]);
    assert(received(r, end.drop_last().drop_last()) == r);
    assert(received(r, end.drop_last()) == (Received { at: Reading::Ending, ..r }));
}

/// Whether `t` hands a terminal no payload, and leaves it ready for more.
pub open spec fn bare(t: Seq<char>) -> bool {
    forall|r: Received| r.at is Outside ==> #[trigger] received(r, t) == r
}

/// What is bare carries nothing.
pub proof fn lemma_bare(t: Seq<char>)
    requires
        bare(t),
    ensures
        carried(t) == Seq::<char>::empty(),
{
    let r = Received { at: Reading::Outside, payload: seq![] };
    assert(received(r, t) == r);
}

/// Bare texts join to a bare one.
pub proof fn lemma_bare_joins(a: Seq<char>, b: Seq<char>)
    requires
        bare(a),
        bare(b),
    ensures
        bare(a + b),
{
    assert forall|r: Received| r.at is Outside implies #[trigger] received(r, a + b) == r by {
        lemma_received_joins(r, a, b);
        assert(received(r, a) == r);
    }
}

/// Text without an escape is bare.
pub proof fn lemma_plain_is_bare(t: Seq<char>)
    requires
        forall|i: int| 0 <= i < t.len() ==> t[i] != '\u{1b}',
    ensures
        bare(t),
    decreases t.len(),
{
    if t.len() > 0 {
        lemma_plain_is_bare(t.drop_last());
        assert forall|r: Received| r.at is Outside implies #[trigger] received(r, t) == r by {
            assert(received(r, t.drop_last()) == r);
        }
    }
}

/// An escape that begins no command is bare, with the text behind it.
pub proof fn lemma_control_is_bare(t: Seq<char>)
    requires
        t.len() >= 2,
        t[0] == '\u{1b}',
        t[1] != '_',
        forall|i: int| 1 <= i < t.len() ==> t[i] != '\u{1b}',
    ensures
        bare(t),
{
    let esc = t.take(2);
    let rest = t.skip(2);
    assert(t =~= esc + rest);
    assert forall|r: Received| r.at is Outside implies #[trigger] received(r, esc) == r by {
        assert(esc.drop_last().drop_last() =~= seq![]);
        assert(received(r, esc.drop_last().drop_last()) == r);
        assert(received(r, esc.drop_last()) == (Received { at: Reading::Escape, ..r }));
    }
    lemma_plain_is_bare(rest);
    lemma_bare_joins(esc, rest);
}

/// A number holds no escape.
pub proof fn lemma_dec_is_plain(n: nat)
    ensures
        forall|i: int| 0 <= i < text::dec(n).len() ==> #[trigger] text::dec(n)[i] != '\u{1b}',
{
    text::lemma_dec(n);
    assert forall|i: int| 0 <= i < text::dec(n).len() implies #[trigger] text::dec(n)[i]
        != '\u{1b}' by {
        assert(text::is_digit(text::dec(n)[i]));
    }
}

/// A command whose header is not over yet.
proof fn lemma_opened(r: Received, t: Seq<char>)
    requires
        r.at is Outside,
        t.len() >= 2,
        t[0] == '\u{1b}',
        t[1] == '_',
        forall|i: int| 2 <= i < t.len() ==> t[i] != ';',
    ensures
        received(r, t) == (Received { at: Reading::Header, ..r }),
{
    let esc = t.take(2);
    let rest = t.skip(2);
    assert(t =~= esc + rest);
    assert(esc.drop_last().drop_last() =~= seq![]);
    assert(received(r, esc.drop_last().drop_last()) == r);
    assert(received(r, esc.drop_last()) == (Received { at: Reading::Escape, ..r }));
    lemma_header_part(Received { at: Reading::Header, ..r }, rest);
    lemma_received_joins(r, esc, rest);
}

/// More of a header leaves it as it is.
proof fn lemma_header_goes_on(r: Received, a: Seq<char>, b: Seq<char>)
    requires
        received(r, a).at is Header,
        in_header(b),
    ensures
        received(r, a + b) == received(r, a),
{
    lemma_received_joins(r, a, b);
    lemma_header_part(received(r, a), b);
}

proof fn lemma_number_goes_on(r: Received, a: Seq<char>, n: nat)
    requires
        received(r, a).at is Header,
    ensures
        received(r, a + text::dec(n)) == received(r, a),
{
    lemma_dec_in_header(n);
    lemma_header_goes_on(r, a, text::dec(n));
}

proof fn lemma_placing(id: u32, p: Placement, r: Received)
    requires
        r.at is Outside,
    ensures
        received(r, placing(id, p)) == r,
{
    let t0 = "\x1b_Ga=p,i="@;
    reveal_strlit("\x1b_Ga=p,i=");
    lemma_opened(r, t0);
    lemma_number_goes_on(r, t0, id as nat);
    let t1 = t0 + text::dec(id as nat);
    reveal_strlit(",p=");
    lemma_header_goes_on(r, t1, ",p="@);
    let t2 = t1 + ",p="@;
    lemma_number_goes_on(r, t2, PLACEMENT as nat);
    let t3 = t2 + text::dec(PLACEMENT as nat);
    reveal_strlit(",q=2,C=1,x=");
    lemma_header_goes_on(r, t3, ",q=2,C=1,x="@);
    let t4 = t3 + ",q=2,C=1,x="@;
    lemma_number_goes_on(r, t4, p.src_x as nat);
    let t5 = t4 + text::dec(p.src_x as nat);
    reveal_strlit(",y=");
    lemma_header_goes_on(r, t5, ",y="@);
    let t6 = t5 + ",y="@;
    lemma_number_goes_on(r, t6, p.src_y as nat);
    let t7 = t6 + text::dec(p.src_y as nat);
    reveal_strlit(",w=");
    lemma_header_goes_on(r, t7, ",w="@);
    let t8 = t7 + ",w="@;
    lemma_number_goes_on(r, t8, p.src_w as nat);
    let t9 = t8 + text::dec(p.src_w as nat);
    reveal_strlit(",h=");
    lemma_header_goes_on(r, t9, ",h="@);
    let t10 = t9 + ",h="@;
    lemma_number_goes_on(r, t10, p.src_h as nat);
    let t11 = t10 + text::dec(p.src_h as nat);
    reveal_strlit(",c=");
    lemma_header_goes_on(r, t11, ",c="@);
    let t12 = t11 + ",c="@;
    lemma_number_goes_on(r, t12, p.cols as nat);
    let t13 = t12 + text::dec(p.cols as nat);
    reveal_strlit(",r=");
    lemma_header_goes_on(r, t13, ",r="@);
    let t14 = t13 + ",r="@;
    lemma_number_goes_on(r, t14, p.rows as nat);
    let t15 = t14 + text::dec(p.rows as nat);
    reveal_strlit(",z=");
    lemma_header_goes_on(r, t15, ",z="@);
    let t16 = t15 + ",z="@;
    let z = text::dec_int(p.z as int);
    reveal_strlit("-");
    lemma_dec_in_header(p.z as nat);
    lemma_dec_in_header((-p.z) as nat);
    assert(in_header(z));
    lemma_header_goes_on(r, t16, z);
    let header = t16 + z;
    let open = Received { at: Reading::Header, ..r };
    let full = Received { at: Reading::Payload, ..r };
    reveal_strlit(";");
    reveal_strlit("\x1b\\");
    reveal_strlit(";\x1b\\");
    assert(";\x1b\\"@ =~= ";"@ + "\x1b\\"@);
    assert(";"@.drop_last() =~= seq![]);
    assert(received(open, ";"@.drop_last()) == open);
    assert(received(open, ";"@) == full);
    lemma_end(full);
    lemma_received_joins(open, ";"@, "\x1b\\"@);
    lemma_received_joins(r, header, ";\x1b\\"@);
}

/// To place part of a stored image is to send none of it.
pub proof fn law_placing_carries_nothing(id: u32, p: Placement)
    ensures
        bare(placing(id, p)),
        carried(placing(id, p)) == Seq::<char>::empty(),
{
    assert forall|r: Received| r.at is Outside implies #[trigger] received(r, placing(id, p))
        == r by {
        lemma_placing(id, p, r);
    }
    lemma_bare(placing(id, p));
}

/// The first `n` chunks of a payload are its first bytes.
pub open spec fn sent(payload: Seq<u8>, n: nat) -> Seq<u8> {
    payload.take(
        if n * 3072 < payload.len() {
            (n * 3072) as int
        } else {
            payload.len() as int
        },
    )
}

proof fn lemma_commands(s: Sending, payload: Seq<u8>, n: nat)
    requires
        n <= chunk_count(payload.len()),
    ensures
        received(Received { at: Reading::Outside, payload: seq![] }, commands(s, payload, n)) == (
        Received { at: Reading::Outside, payload: base64::base64_of(sent(payload, n)) }),
    decreases n,
{
    let start = Received { at: Reading::Outside, payload: seq![] };
    if n == 0 {
        assert(sent(payload, 0) =~= seq![]);
    } else {
        let m = (n - 1) as nat;
        lemma_commands(s, payload, m);
        let before = Received {
            at: Reading::Outside,
            payload: base64::base64_of(sent(payload, m)),
        };
        lemma_received_joins(start, commands(s, payload, m), command(s, payload, m as int));
        lemma_command(s, payload, m as int, before);
        assert(sent(payload, m).len() == m * 3072);
        assert(sent(payload, n) =~= sent(payload, m) + chunk(payload, m as int));
        base64::law_base64_joins(sent(payload, m), chunk(payload, m as int));
    }
}

/// What is sent is what arrives: the payloads of a transmission's commands, put together and read
/// as base 64, are the bytes that were to be sent.
pub proof fn law_transmission_round_trips(s: Sending, payload: Seq<u8>)
    ensures
        base64::unbase64(carried(transmission(s, payload))) == payload,
{
    let n = chunk_count(payload.len());
    lemma_commands(s, payload, n);
    assert(sent(payload, n) =~= payload);
    base64::law_base64_round_trips(payload);
}

/// Every chunk fills the protocol's limit of 4096 characters but the last, which stays within it.
pub proof fn law_chunks_are_full(s: Sending, payload: Seq<u8>, k: int)
    requires
        0 <= k < chunk_count(payload.len()),
    ensures
        k + 1 < chunk_count(payload.len()) ==> base64::base64_of(chunk(payload, k)).len() == 4096,
        0 < base64::base64_of(chunk(payload, k)).len() <= 4096,
{
    base64::lemma_base64_len(chunk(payload, k));
}

/// The first command of a transmission says what becomes of the image, its name, what is replied, that
/// its pixels are 32 bits each and compressed, its size and whether more is to come; the others say no
/// more than what is replied and whether more is to come. Every command but the last says that more is.
pub proof fn law_a_command_says_what_it_carries(s: Sending, payload: Seq<u8>, k: int)
    requires
        0 <= k < chunk_count(payload.len()),
    ensures
        ({
            let data = base64::base64_of(chunk(payload, k)) + "\x1b\\"@;
            let last = (k + 1) * 3072 >= payload.len();
            let more = if last {
                "0"@
            } else {
                "1"@
            };
            let quiet = match s.quiet {
                Quiet::Fully => "2"@,
                Quiet::ErrorsOnly => "1"@,
            };
            let shown = match (s.display, s.cells) {
                (false, _) => "\x1b_Ga=t"@,
                (true, None) => "\x1b_Ga=T,C=1"@,
                (true, Some((c, r))) => "\x1b_Ga=T,C=1,c="@ + text::dec(c as nat) + ",r="@ + text::dec(
                    r as nat,
                ),
            };
            &&& k == 0 ==> command(s, payload, k) == shown + ",i="@ + text::dec(s.id as nat) + ",q="@
                + quiet + ",f=32,o=z,s="@ + text::dec(s.w as nat) + ",v="@ + text::dec(s.h as nat)
                + ",m="@ + more + ";"@ + data
            &&& k > 0 ==> command(s, payload, k) == "\x1b_Gq="@ + quiet + ",m="@ + more + ";"@ + data
        }),
{
    reveal_strlit("0");
    reveal_strlit("1");
    reveal_strlit("2");
    reveal_strlit("\x1b_Ga=");
    reveal_strlit("\x1b_Ga=t");
    reveal_strlit("t");
    reveal_strlit("T,C=1");
    reveal_strlit("T,C=1,c=");
    reveal_strlit("\x1b_Ga=T,C=1");
    reveal_strlit("\x1b_Ga=T,C=1,c=");
    assert("\x1b_Ga=t"@ =~= "\x1b_Ga="@ + "t"@);
    assert("\x1b_Ga=T,C=1"@ =~= "\x1b_Ga="@ + "T,C=1"@);
    assert("\x1b_Ga=T,C=1,c="@ =~= "\x1b_Ga="@ + "T,C=1,c="@);
    assert(text::dec(1) =~= "1"@);
    assert(text::dec(2) =~= "2"@);
    let data = base64::base64_of(chunk(payload, k)) + "\x1b\\"@;
    let last = (k + 1) * 3072 >= payload.len();
    assert(last == !(k + 1 < chunk_count(payload.len())));
    let more = if last {
        "0"@
    } else {
        "1"@
    };
    assert(flag(!last) == more);
    let quiet = match s.quiet {
        Quiet::Fully => "2"@,
        Quiet::ErrorsOnly => "1"@,
    };
    assert(text::dec(s.quiet.level()) == quiet);
    let shown = match (s.display, s.cells) {
        (false, _) => "\x1b_Ga=t"@,
        (true, None) => "\x1b_Ga=T,C=1"@,
        (true, Some((c, r))) => "\x1b_Ga=T,C=1,c="@ + text::dec(c as nat) + ",r="@ + text::dec(
            r as nat,
        ),
    };
    assert(shown =~= "\x1b_Ga="@ + action(s.display, s.cells));
    lemma_command_joins(
        if k == 0 {
            first_header(s, !last)
        } else {
            next_header(s, !last)
        },
        base64::base64_of(chunk(payload, k)),
        "\x1b\\"@,
    );
}

proof fn lemma_command_joins(a: Seq<char>, b: Seq<char>, c: Seq<char>)
    ensures
        a + b + c == a + (b + c),
{
    assert(a + b + c =~= a + (b + c));
}

/// A transmission is its commands, first to last, each with its own part of the payload, in order.
pub proof fn law_a_transmission_is_its_commands(s: Sending, payload: Seq<u8>, n: nat)
    ensures
        commands(s, payload, 0).len() == 0,
        commands(s, payload, n + 1) == commands(s, payload, n) + command(s, payload, n as int),
        chunk_count(payload.len()) * 3072 >= payload.len(),
        payload.len() > 0 ==> (chunk_count(payload.len()) - 1) * 3072 < payload.len(),
        transmission(s, payload) == commands(s, payload, chunk_count(payload.len())),
{
}

/// To place part of a stored image names it, and says which of its pixels are shown, in how many cells
/// and how deep, and to leave the cursor where it is.
pub proof fn law_a_placement_says_what_is_shown(id: u32, p: Placement)
    ensures
        placing(id, p) == "\x1b_Ga=p,i="@ + text::dec(id as nat) + ",p=1"@ + ",q=2,C=1,x="@ + text::dec(
            p.src_x as nat,
        ) + ",y="@ + text::dec(p.src_y as nat) + ",w="@ + text::dec(p.src_w as nat) + ",h="@
            + text::dec(p.src_h as nat) + ",c="@ + text::dec(p.cols as nat) + ",r="@ + text::dec(
            p.rows as nat,
        ) + ",z="@ + text::dec_int(p.z as int) + ";\x1b\\"@,
{
    reveal_strlit(",p=");
    reveal_strlit(",p=1");
    assert(text::dec(1) =~= seq!['1']);
    assert(",p=1"@ =~= ",p="@ + text::dec(PLACEMENT as nat));
    let a = "\x1b_Ga=p,i="@ + text::dec(id as nat);
    lemma_command_joins(a, ",p="@, text::dec(PLACEMENT as nat));
}

/// To drop an image names that image and no other, and frees its pixels; to drop a run of them names the
/// first and the last.
pub proof fn law_what_is_dropped_is_named(id: u32, first: nat, last: nat)
    ensures
        forgetting(id) == "\x1b_Ga=d,d=I,i="@ + text::dec(id as nat) + ",q=2;\x1b\\"@,
        forgetting_range(first, last) == "\x1b_Ga=d,d=R,x="@ + text::dec(first) + ",y="@ + text::dec(
            last,
        ) + ",q=2;\x1b\\"@,
        PRINT_BASE == 0xC0DE_0000,
        PRINT_SPAN == 0x0010_0000,
{
}

/// A run counts its ids up by one from the first, round past the last to one.
pub proof fn law_ids_are_counted_up(base: u32, n: int)
    requires
        0 <= n,
    ensures
        base > 0 ==> nth_id(base, 0) == base,
        nth_id(base, n) < u32::MAX ==> nth_id(base, n + 1) == nth_id(base, n) + 1,
        nth_id(base, n) == u32::MAX ==> nth_id(base, n + 1) == 1,
{
    let first = if base == 0 {
        0
    } else {
        base - 1
    };
    let (a, b) = (first + n, first + n + 1);
    let m = IDS as int;
    assert(b % m == if a % m == m - 1 {
        0
    } else {
        a % m + 1
    }) by (nonlinear_arith)
        requires
            b == a + 1,
            m == 0xffff_ffff,
            0 <= a,
    ;
}

} // verus!
