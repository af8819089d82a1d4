//! The terminal being written to, as far as the environment and the terminal itself will say.

use vstd::prelude::*;

use crate::geometry;
use crate::geometry::CellSize;
use crate::text;
use crate::text::{chars_of, control, find_bytes, find_chars, push_chars, push_dec, read_number, trim_range};

verus! {

/// The graphics protocol a terminal will accept.
#[derive(Clone, Copy, Debug, PartialEq, Eq, Structural)]
pub enum Protocol {
    Kitty,
    /// None that is known.
    Unknown,
}

/// The terminal being written to: its size, its cell size, and its protocol.
#[derive(Clone, Copy, Debug, PartialEq, Eq, Structural)]
pub struct Terminal {
    pub cols: u32,
    pub rows: u32,
    pub cell: CellSize,
    pub protocol: Protocol,
}

/// The longest detection will wait for a reply from a terminal on this machine, in microseconds.
pub const LOCAL_CEILING: u64 = 250_000;

/// The longest detection will wait for a reply from a terminal at the far end of an ssh connection,
/// in microseconds.
pub const REMOTE_CEILING: u64 = 1_500_000;

/// How long to keep draining after a query gives up, before restoring the terminal, in
/// microseconds.
//
// a reply that lands after the restore is delivered to whatever reads the
// tty next, which is the user's shell: it appears as though they typed the
// escape sequence at their prompt. tcsetattr(TCSAFLUSH) discards only what
// has already queued, so a slow terminal needs this grace window too
pub const DRAIN_GRACE: u64 = 60_000;

/// The longest drain window there is, in microseconds.
//
// draining cannot tell nothing arriving from a reply still
// in flight, so it waits out the whole window on every
// query, not just on the rare late one
pub const MAX_GRACE: u64 = 250_000;

/// `n`, or the nearest there is to it from `lo` to `hi`.
pub open spec fn between(n: int, lo: int, hi: int) -> int {
    if n < lo {
        lo
    } else if n > hi {
        hi
    } else {
        n
    }
}

/// How long to wait for a reply, given a measured round trip: four of them, for jitter and for a
/// terminal that takes longer to compose a version string than a status report, but no less than a
/// terminal on this machine gets and no more than the ceiling.
pub fn reply_budget(rtt: u64, ceiling: u64) -> (r: u64)
    requires
        LOCAL_CEILING <= ceiling,
    ensures
        r == between(4 * rtt, LOCAL_CEILING as int, ceiling as int),
{
    if rtt > ceiling / 4 {
        return ceiling;
    }
    let n: u64 = 4 * rtt;
    if n < LOCAL_CEILING {
        LOCAL_CEILING
    } else {
        n
    }
}

/// How long to keep draining on a link of that round trip, where it was `window` so far: as long as
/// the round trip, within bounds, and never less than before.
//
// a late reply crosses the link too, so the window for
// catching one before the tty returns to the shell
// grows with the link
pub fn grace(window: u64, rtt: u64) -> (r: u64)
    ensures
        r >= window,
        r == widened(window as int, rtt as int),
{
    let asked: u64 = if rtt > MAX_GRACE {
        MAX_GRACE
    } else {
        rtt
    };
    if asked < window {
        window
    } else {
        asked
    }
}

/// A drain window widened to a round trip, but no further than there is.
pub open spec fn widened(window: int, rtt: int) -> int {
    let asked = if rtt > MAX_GRACE {
        MAX_GRACE as int
    } else {
        rtt
    };
    if asked < window {
        window
    } else {
        asked
    }
}

/// A drain window is never narrowed, and never widened past what there is.
pub proof fn law_a_drain_is_never_narrowed(window: int, a: int, b: int)
    requires
        DRAIN_GRACE <= window <= MAX_GRACE,
    ensures
        DRAIN_GRACE <= window <= widened(window, a) <= widened(widened(window, a), b) <= MAX_GRACE,
{
}

/// A slower link is waited for longer, and never longer than the ceiling nor shorter than a local
/// terminal is.
pub proof fn law_a_slow_link_stretches_the_budget(a: u64, b: u64, ceiling: u64)
    requires
        a <= b,
        LOCAL_CEILING <= ceiling,
    ensures
        LOCAL_CEILING <= between(4 * a, LOCAL_CEILING as int, ceiling as int) <= between(
            4 * b,
            LOCAL_CEILING as int,
            ceiling as int,
        ) <= ceiling,
{
}

/// A variable of the environment: whether it is set, and to what, where that is text.
#[derive(Debug)]
pub struct Var {
    pub set: bool,
    pub text: Option<String>,
}

impl Var {
    /// What it is set to, or nothing.
    pub open spec fn value(self) -> Seq<char> {
        match self.text {
            Some(t) => t@,
            None => seq![],
        }
    }
}

/// The variables of the environment that detection reads.
#[derive(Debug)]
pub struct Env {
    pub term: Var,
    pub program: Var,
    pub kitty_window: Var,
    pub ghostty_resources: Var,
    pub ghostty_bin: Var,
    pub wezterm: Var,
    pub ssh_tty: Var,
    pub ssh_connection: Var,
}

/// Whether `needle` stands anywhere in `hay`.
pub open spec fn holds<T>(hay: Seq<T>, needle: Seq<T>) -> bool {
    text::first_from(hay, needle, 0) is Some
}

impl Env {
    /// The protocol the environment alone tells of.
    //
    // TERM is not reliable on its own: ghostty and kitty are routinely run with
    // TERM=xterm-256color so that ssh to a host without their terminfo still
    // works, which is exactly when the escape-sequence probe matters least
    // and costs most
    pub open spec fn tells(self) -> Option<Protocol> {
        let term = self.term.value();
        let program = self.program.value();
        if holds(term, "kitty"@) || holds(term, "ghostty"@) || program == "ghostty"@ || program
            == "kitty"@ || program == "WezTerm"@ || self.kitty_window.set
            || self.ghostty_resources.set || self.ghostty_bin.set || self.wezterm.set {
            Some(Protocol::Kitty)
        } else {
            None
        }
    }

    /// Whether this process is at the far end of an ssh connection.
    //
    // sshd sets both in the session it spawns, and neither
    // leaks into an unrelated local shell, so either one
    // settles it
    pub open spec fn remote(self) -> bool {
        self.ssh_tty.set || self.ssh_connection.set
    }

    /// The longest to wait for a reply.
    pub open spec fn ceiling(self) -> u64 {
        if self.remote() {
            REMOTE_CEILING
        } else {
            LOCAL_CEILING
        }
    }
}

fn value(v: &Var) -> (r: Vec<char>)
    ensures
        r@ == v.value(),
{
    match &v.text {
        Some(t) => chars_of(t.as_str()),
        None => Vec::new(),
    }
}

fn has(hay: &[char], needle: &str) -> (r: bool)
    ensures
        r == holds(hay@, needle@),
{
    let chars = chars_of(needle);
    find_chars(hay, &chars, 0).is_some()
}

/// Identify the protocol from the environment alone, without writing anything to the terminal.
pub fn protocol_from_env(e: &Env) -> (r: Option<Protocol>)
    ensures
        r == e.tells(),
{
    let term = value(&e.term);
    if has(&term, "kitty") || has(&term, "ghostty") {
        return Some(Protocol::Kitty);
    }
    let program = value(&e.program);
    if text::equals(&program, "ghostty") || text::equals(&program, "kitty") || text::equals(
        &program,
        "WezTerm",
    ) {
        return Some(Protocol::Kitty);
    }
    if e.kitty_window.set || e.ghostty_resources.set || e.ghostty_bin.set || e.wezterm.set {
        Some(Protocol::Kitty)
    } else {
        None
    }
}

/// Whether this process is at the far end of an ssh connection.
pub fn over_ssh(e: &Env) -> (r: bool)
    ensures
        r == e.remote(),
{
    e.ssh_tty.set || e.ssh_connection.set
}

/// The longest to wait for a reply.
//
// a ceiling is paid in full only by a terminal that
// stays silent, and one that answers no status report
// would not render an image either, so the remote
// ceiling only lengthens a run that already fails
pub fn reply_ceiling(e: &Env) -> (r: u64)
    ensures
        r == e.ceiling(),
        LOCAL_CEILING <= r <= REMOTE_CEILING,
{
    if over_ssh(e) {
        REMOTE_CEILING
    } else {
        LOCAL_CEILING
    }
}

/// What a kernel reports of a terminal's size: its cells, and its pixels.
#[derive(Clone, Copy, Debug, PartialEq, Eq, Structural)]
pub struct Report {
    pub cols: u16,
    pub rows: u16,
    pub wide: u16,
    pub tall: u16,
}

/// A terminal's size in cells, or a guess. Zero cells means the terminal has no size to report, the
/// same as no report.
pub open spec fn size_of(r: Option<Report>) -> (u32, u32) {
    match r {
        Some(r) => if r.cols > 0 && r.rows > 0 {
            (r.cols as u32, r.rows as u32)
        } else {
            (80, 24)
        },
        None => (80, 24),
    }
}

/// The size of a cell in pixels, where the report has one that can be.
//
// a terminal that does not track pixels reports zeroes, and some report
// a nonsense pair instead; anything that would imply a cell narrower
// than 2px or shorter than 4px is one of those
pub open spec fn cell_of(r: Option<Report>) -> Option<CellSize> {
    match r {
        Some(r) => if r.cols > 0 && r.rows > 0 && r.wide >= 2 * r.cols && r.tall >= 4 * r.rows {
            Some(
                CellSize { w: (r.wide / r.cols) as u32, h: (r.tall / r.rows) as u32 },
            )
        } else {
            None
        },
        None => None,
    }
}

/// A terminal's size in cells, and that of a cell in pixels where it is known.
pub fn window_size(report: Option<Report>) -> (r: (u32, u32, Option<CellSize>))
    ensures
        (r.0, r.1) == size_of(report),
        r.2 == cell_of(report),
        0 < r.0 <= 0xffff,
        0 < r.1 <= 0xffff,
        r.2 matches Some(c) ==> c.w >= 2 && c.h >= 4,
{
    match report {
        None => (80, 24, None),
        Some(w) => {
            if w.cols == 0 || w.rows == 0 {
                return (80, 24, None);
            }
            let (cols, rows): (u32, u32) = (w.cols as u32, w.rows as u32);
            let (wide, tall): (u32, u32) = (w.wide as u32, w.tall as u32);
            if wide >= 2 * cols && tall >= 4 * rows {
                proof {
                    assert(w.wide as int / w.cols as int >= 2) by (nonlinear_arith)
                        requires
                            w.wide >= 2 * w.cols,
                            w.cols > 0,
                    ;
                    assert(w.tall as int / w.rows as int >= 4) by (nonlinear_arith)
                        requires
                            w.tall >= 4 * w.rows,
                            w.rows > 0,
                    ;
                }
                let cell = CellSize { w: (w.wide / w.cols) as u32, h: (w.tall / w.rows) as u32 };
                (cols, rows, Some(cell))
            } else {
                (cols, rows, None)
            }
        },
    }
}

/// The terminal's current size in cells, as a kernel reports it.
pub fn current_cells(report: Option<Report>) -> (r: (u32, u32))
    ensures
        r == size_of(report),
        0 < r.0 <= 0xffff,
        0 < r.1 <= 0xffff,
{
    let (cols, rows, _) = window_size(report);
    (cols, rows)
}

/// What a reply to a question for the cell size begins with.
pub open spec fn cell_reply() -> Seq<u8> {
    seq![0x1b, 0x5b, 0x36, 0x3b]
}

/// Whether a reply to a question for the cell size is whole: it ends in a `t`.
pub open spec fn cell_told(b: Seq<u8>) -> bool {
    match text::first_from(b, cell_reply(), 0) {
        Some(at) => text::first_from(b, seq![0x74u8], at) is Some,
        None => false,
    }
}

/// The part of `s` before its first semicolon, and the part behind it where there is one.
pub open spec fn parted(s: Seq<char>) -> (Seq<char>, Option<Seq<char>>) {
    match text::first_from(s, seq![';'], 0) {
        Some(at) => (s.take(at), Some(s.skip(at + 1))),
        None => (s, None),
    }
}

/// A cell size, height first, with a semicolon between the two and perhaps more behind.
pub open spec fn size_in(s: Seq<char>) -> Option<CellSize> {
    let (high, rest) = parted(s);
    match (text::whole_number(text::trim(high)), rest) {
        (Some(h), Some(rest)) => match text::whole_number(text::trim(parted(rest).0)) {
            Some(w) => if w > 0 && h > 0 {
                Some(CellSize { w, h })
            } else {
                None
            },
            None => None,
        },
        _ => None,
    }
}

/// The cell size a reply tells of. It is `CSI 6 ; <height> ; <width> t`, height first.
pub open spec fn cell_in(reply: Seq<u8>) -> Option<CellSize> {
    match text::first_from(reply, cell_reply(), 0) {
        None => None,
        Some(at) => match text::first_from(reply, seq![0x74u8], at + 4) {
            None => None,
            Some(end) => {
                let body = reply.subrange(at + 4, end);
                if vstd::utf8::valid_utf8(body) {
                    size_in(vstd::utf8::decode_utf8(body))
                } else {
                    None
                }
            },
        },
    }
}

/// Whether a reply to a question for the cell size is whole.
pub fn cell_answered(b: &[u8]) -> (r: bool)
    ensures
        r == cell_told(b@),
{
    let head: [u8; 4] = [0x1b, 0x5b, 0x36, 0x3b];
    let tail: [u8; 1] = [0x74];
    assert(head@ =~= cell_reply());
    assert(tail@ =~= seq![0x74u8]);
    match find_bytes(b, head.as_slice(), 0) {
        Some(at) => find_bytes(b, tail.as_slice(), at).is_some(),
        None => false,
    }
}

fn part(s: &[char], from: usize) -> (r: (usize, bool))
    requires
        from <= s@.len(),
    ensures
        from <= r.0 <= s@.len(),
        s@.subrange(from as int, r.0 as int) == parted(s@.skip(from as int)).0,
        r.1 == (parted(s@.skip(from as int)).1 is Some),
        r.1 ==> r.0 < s@.len() && parted(s@.skip(from as int)).1 == Some(s@.skip(r.0 + 1)),
{
    let semi: [char; 1] = [';'];
    assert(semi@ =~= seq![';']);
    let rest = vstd::slice::slice_subrange(s, from, s.len());
    assert(rest@ =~= s@.skip(from as int));
    match find_chars(rest, semi.as_slice(), 0) {
        Some(at) => {
            proof {
                text::lemma_first_from(rest@, seq![';'], 0);
            }
            assert(s@.subrange(from as int, from + at) =~= rest@.take(at as int));
            assert(rest@.skip(at + 1) =~= s@.skip(from + at + 1));
            (from + at, true)
        },
        None => {
            assert(s@.subrange(from as int, s@.len() as int) =~= rest@);
            (s.len(), false)
        },
    }
}

fn number_in(s: &[char], from: usize, to: usize) -> (r: Option<u32>)
    requires
        from <= to <= s@.len(),
    ensures
        r == text::whole_number(text::trim(s@.subrange(from as int, to as int))),
{
    let (a, b) = trim_range(s, from, to);
    read_number(vstd::slice::slice_subrange(s, a, b))
}

fn read_size(s: &[char]) -> (r: Option<CellSize>)
    ensures
        r == size_in(s@),
{
    let n: usize = s.len();
    assert(s@.skip(0) =~= s@);
    let (end, more) = part(s, 0);
    assert(end <= n);
    let h: u32 = match number_in(s, 0, end) {
        Some(h) => h,
        None => {
            return None;
        },
    };
    if !more {
        return None;
    }
    let (last, _) = part(s, end + 1);
    let w: u32 = match number_in(s, end + 1, last) {
        Some(w) => w,
        None => {
            return None;
        },
    };
    if w > 0 && h > 0 {
        Some(CellSize { w, h })
    } else {
        None
    }
}

/// The cell size a reply tells of.
pub fn cell_size_of(reply: &[u8]) -> (r: Option<CellSize>)
    ensures
        r == cell_in(reply@),
        r matches Some(c) ==> c.w > 0 && c.h > 0,
{
    let head: [u8; 4] = [0x1b, 0x5b, 0x36, 0x3b];
    let tail: [u8; 1] = [0x74];
    assert(head@ =~= cell_reply());
    assert(tail@ =~= seq![0x74u8]);
    let n: usize = reply.len();
    let at: usize = match find_bytes(reply, head.as_slice(), 0) {
        Some(at) => at,
        None => {
            return None;
        },
    };
    assert(at + 4 <= n);
    let end: usize = match find_bytes(reply, tail.as_slice(), at + 4) {
        Some(end) => end,
        None => {
            return None;
        },
    };
    match text::strict(vstd::slice::slice_subrange(reply, at + 4, end)) {
        Some(s) => {
            let chars = chars_of(s.as_str());
            read_size(&chars)
        },
        None => None,
    }
}

/// Whether a status report has been answered: `CSI 0 n`. Every terminal answers one.
pub fn status_answered(b: &[u8]) -> (r: bool)
    ensures
        r == holds(b@, seq![0x1bu8, 0x5b, 0x30, 0x6e]),
{
    let reply: [u8; 4] = [0x1b, 0x5b, 0x30, 0x6e];
    assert(reply@ =~= seq![0x1bu8, 0x5b, 0x30, 0x6e]);
    find_bytes(b, reply.as_slice(), 0).is_some()
}

/// Whether a question for the version, and the status report behind it, have been answered. The
/// version query is not universally answered, so the status reply marks the end of the exchange even
/// when it drew nothing.
pub fn version_answered(b: &[u8]) -> (r: bool)
    ensures
        r == holds(b@, seq![0x1bu8, 0x5b, 0x30]),
{
    let reply: [u8; 3] = [0x1b, 0x5b, 0x30];
    assert(reply@ =~= seq![0x1bu8, 0x5b, 0x30]);
    find_bytes(b, reply.as_slice(), 0).is_some()
}

/// The bytes of `kitty`.
pub open spec fn kitty_bytes() -> Seq<u8> {
    seq![0x6b, 0x69, 0x74, 0x74, 0x79]
}

/// The bytes of `ghostty`.
pub open spec fn ghostty_bytes() -> Seq<u8> {
    seq![0x67, 0x68, 0x6f, 0x73, 0x74, 0x74, 0x79]
}

/// The bytes of `WezTerm`.
pub open spec fn wezterm_bytes() -> Seq<u8> {
    seq![0x57, 0x65, 0x7a, 0x54, 0x65, 0x72, 0x6d]
}

/// The bytes of `Konsole`.
pub open spec fn konsole_bytes() -> Seq<u8> {
    seq![0x4b, 0x6f, 0x6e, 0x73, 0x6f, 0x6c, 0x65]
}

/// The protocol a version reply tells of. Ghostty answers with "libghostty", so names match anywhere
/// in it.
pub open spec fn protocol_in(reply: Seq<u8>) -> Protocol {
    if holds(reply, kitty_bytes()) || holds(reply, ghostty_bytes()) || holds(
        reply,
        wezterm_bytes(),
    ) || holds(reply, konsole_bytes()) {
        Protocol::Kitty
    } else {
        Protocol::Unknown
    }
}

/// The protocol a version reply tells of.
pub fn protocol_of(reply: &[u8]) -> (r: Protocol)
    ensures
        r == protocol_in(reply@),
{
    let kitty: [u8; 5] = [0x6b, 0x69, 0x74, 0x74, 0x79];
    let ghostty: [u8; 7] = [0x67, 0x68, 0x6f, 0x73, 0x74, 0x74, 0x79];
    let wezterm: [u8; 7] = [0x57, 0x65, 0x7a, 0x54, 0x65, 0x72, 0x6d];
    let konsole: [u8; 7] = [0x4b, 0x6f, 0x6e, 0x73, 0x6f, 0x6c, 0x65];
    assert(kitty@ =~= kitty_bytes());
    assert(ghostty@ =~= ghostty_bytes());
    assert(wezterm@ =~= wezterm_bytes());
    assert(konsole@ =~= konsole_bytes());
    if find_bytes(reply, kitty.as_slice(), 0).is_some() || find_bytes(
        reply,
        ghostty.as_slice(),
        0,
    ).is_some() || find_bytes(reply, wezterm.as_slice(), 0).is_some() || find_bytes(
        reply,
        konsole.as_slice(),
        0,
    ).is_some() {
        Protocol::Kitty
    } else {
        Protocol::Unknown
    }
}

/// How the round trip to the terminal went.
#[derive(Clone, Copy, Debug, PartialEq, Eq)]
pub enum Measured {
    /// The environment answered every question, so no tty was opened.
    NotNeeded,
    /// Something needed asking, but there was no terminal to ask on.
    NoTty,
    /// The terminal answered a status report this quickly, in microseconds, or not at all.
    Link(Option<u64>),
}

/// What there is to ask the terminal next.
#[derive(Clone, Copy, Debug, PartialEq, Eq)]
pub enum Question {
    /// Open it, and time a status report, waiting at most so long.
    Status(u64),
    /// The size of its cells, waiting at most so long.
    Cell(u64),
    /// Its version, waiting at most so long.
    Version(u64),
}

impl Question {
    /// What is sent to ask it.
    //
    // every terminal answers a device status report, CSI 5 n;
    // the replies to the other two vary by terminal. CSI 16 t
    // asks for the cell size directly. XTVERSION, CSI > q, is
    // not universally answered, so a device status request
    // follows it: its reply marks the end of the exchange even
    // when the version query drew nothing
    pub open spec fn asked(self) -> Seq<char> {
        match self {
            Question::Status(_) => "\x1b[5n"@,
            Question::Cell(_) => "\x1b[16t"@,
            Question::Version(_) => "\x1b[>q\x1b[5n"@,
        }
    }

    /// Whether it has been answered.
    pub open spec fn answered_by(self, b: Seq<u8>) -> bool {
        match self {
            Question::Status(_) => holds(b, seq![0x1bu8, 0x5b, 0x30, 0x6e]),
            Question::Cell(_) => cell_told(b),
            Question::Version(_) => holds(b, seq![0x1bu8, 0x5b, 0x30]),
        }
    }

    /// What is sent to ask it.
    pub fn query(&self) -> (r: &'static str)
        ensures
            r@ == self.asked(),
    {
        match self {
            Question::Status(_) => "\x1b[5n",
            Question::Cell(_) => "\x1b[16t",
            Question::Version(_) => "\x1b[>q\x1b[5n",
        }
    }

    /// Whether it has been answered.
    pub fn answered(&self, b: &[u8]) -> (r: bool)
        ensures
            r == self.answered_by(b@),
    {
        match self {
            Question::Status(_) => status_answered(b),
            Question::Cell(_) => cell_answered(b),
            Question::Version(_) => version_answered(b),
        }
    }
}

/// Finding out about the terminal: what is known, and what was asked.
#[derive(Clone, Copy, Debug)]
pub struct Detection {
    pub cols: u32,
    pub rows: u32,
    /// The size of a cell in pixels, once it is known.
    pub cell: Option<CellSize>,
    /// The protocol, once it is known.
    pub protocol: Option<Protocol>,
    pub ceiling: u64,
    /// How the round trip went, once it is known.
    pub measured: Option<Measured>,
    /// Whether the cell size has been asked for.
    pub asked_cell: bool,
    /// Whether the version has been asked for.
    pub asked_version: bool,
}

impl Detection {
    /// Whether a cell has a size where it is known, and the ceiling is one there is.
    pub open spec fn wf(self) -> bool {
        &&& LOCAL_CEILING <= self.ceiling
        &&& self.cell matches Some(c) ==> c.w > 0 && c.h > 0
    }

    /// What to wait for a reply at most, on a terminal that answered a status report. One that was
    /// silent through it is absent, or behind a multiplexer without passthrough; either way graphics
    /// escapes would not reach it, so it is asked no more.
    pub open spec fn budget(self) -> Option<u64> {
        match self.measured {
            Some(Measured::Link(Some(rtt))) => Some(
                between(4 * rtt, LOCAL_CEILING as int, self.ceiling as int) as u64,
            ),
            _ => None,
        }
    }

    /// What there is to ask next.
    //
    // touching termios at all risks leaving a stray reply
    // in the input queue, where it reaches the shell as if
    // the user had typed it, so the tty is opened only for a
    // question the environment cannot answer
    pub open spec fn asks(self) -> Option<Question> {
        match self.measured {
            None => Some(Question::Status(self.ceiling)),
            Some(_) => match self.budget() {
                None => None,
                Some(b) => if self.cell is None && !self.asked_cell {
                    Some(Question::Cell(b))
                } else if self.protocol is None && !self.asked_version {
                    Some(Question::Version(b))
                } else {
                    None
                },
            },
        }
    }

    /// Start from what the kernel reports and what the environment tells.
    pub fn start(report: Option<Report>, e: &Env) -> (r: Detection)
        ensures
            r.wf(),
            (r.cols, r.rows) == size_of(report),
            r.cell == cell_of(report),
            r.protocol == e.tells(),
            r.ceiling == e.ceiling(),
            r.measured == (if r.cell is Some && r.protocol is Some {
                Some(Measured::NotNeeded)
            } else {
                None
            }),
            !r.asked_cell,
            !r.asked_version,
    {
        let (cols, rows, cell) = window_size(report);
        let protocol = protocol_from_env(e);
        let settled = cell.is_some() && protocol.is_some();
        Detection {
            cols,
            rows,
            cell,
            protocol,
            ceiling: reply_ceiling(e),
            measured: if settled {
                Some(Measured::NotNeeded)
            } else {
                None
            },
            asked_cell: false,
            asked_version: false,
        }
    }

    /// What there is to ask the terminal next.
    pub fn next(&self) -> (r: Option<Question>)
        requires
            self.wf(),
        ensures
            r == self.asks(),
    {
        let budget: u64 = match self.measured {
            None => {
                return Some(Question::Status(self.ceiling));
            },
            Some(Measured::Link(Some(rtt))) => reply_budget(rtt, self.ceiling),
            Some(_) => {
                return None;
            },
        };
        if self.cell.is_none() && !self.asked_cell {
            Some(Question::Cell(budget))
        } else if self.protocol.is_none() && !self.asked_version {
            Some(Question::Version(budget))
        } else {
            None
        }
    }

    /// Take how the round trip went.
    pub fn measured(&mut self, m: Measured)
        requires
            old(self).wf(),
        ensures
            final(self).wf(),
            *final(self) == (Detection { measured: Some(m), ..*old(self) }),
    {
        self.measured = Some(m);
    }

    /// Take the reply to a question for the cell size.
    pub fn cell_reply(&mut self, reply: &[u8])
        requires
            old(self).wf(),
        ensures
            final(self).wf(),
            *final(self) == (Detection {
                cell: cell_in(reply@),
                asked_cell: true,
                ..*old(self)
            }),
    {
        self.cell = cell_size_of(reply);
        self.asked_cell = true;
    }

    /// Take the reply to a question for the version.
    pub fn version_reply(&mut self, reply: &[u8])
        requires
            old(self).wf(),
        ensures
            final(self).wf(),
            *final(self) == (Detection {
                protocol: Some(protocol_in(reply@)),
                asked_version: true,
                ..*old(self)
            }),
    {
        self.protocol = Some(protocol_of(reply));
        self.asked_version = true;
    }

    /// The terminal, as far as it was found out: a guess for a cell size that was not, and no protocol
    /// where none was.
    pub fn terminal(&self) -> (r: Terminal)
        requires
            self.wf(),
        ensures
            r == (Terminal {
                cols: self.cols,
                rows: self.rows,
                cell: match self.cell {
                    Some(c) => c,
                    None => CellSize { w: 9, h: 18 },
                },
                protocol: match self.protocol {
                    Some(p) => p,
                    None => Protocol::Unknown,
                },
            }),
            r.cell.w > 0,
            r.cell.h > 0,
    {
        Terminal {
            cols: self.cols,
            rows: self.rows,
            cell: match self.cell {
                Some(c) => c,
                None => CellSize::fallback(),
            },
            protocol: match self.protocol {
                Some(p) => p,
                None => Protocol::Unknown,
            },
        }
    }
}

/// A terminal that the environment and the kernel say everything of is asked nothing.
pub proof fn law_nothing_is_asked_without_need(d: Detection)
    requires
        d.measured == Some(Measured::NotNeeded) || d.measured == Some(Measured::NoTty)
            || d.measured == Some(Measured::Link(None)),
    ensures
        d.asks() is None,
{
}

/// No question is asked twice.
pub proof fn law_no_question_is_asked_twice(d: Detection)
    ensures
        d.measured is Some ==> !(d.asks() matches Some(Question::Status(_))),
        d.asked_cell ==> !(d.asks() matches Some(Question::Cell(_))),
        d.asked_version ==> !(d.asks() matches Some(Question::Version(_))),
{
}

/// `s`, filled up with spaces behind it to `n` characters.
pub open spec fn padded(s: Seq<char>, n: int) -> Seq<char> {
    s + Seq::new(
        (if n > s.len() {
            n - s.len()
        } else {
            0
        }) as nat,
        |i: int| ' ',
    )
}

/// `s`, filled up with spaces in front of it to `n` characters.
pub open spec fn indented(s: Seq<char>, n: int) -> Seq<char> {
    Seq::new(
        (if n > s.len() {
            n - s.len()
        } else {
            0
        }) as nat,
        |i: int| ' ',
    ) + s
}

fn push_spaces(out: &mut String, used: usize, n: usize)
    ensures
        final(out)@ == old(out)@ + Seq::new(
            (if n > used {
                n - used
            } else {
                0
            }) as nat,
            |i: int| ' ',
        ),
{
    let mut i: usize = used;
    assert(used >= n ==> old(out)@ =~= old(out)@ + Seq::new(0nat, |k: int| ' '));
    while i < n
        invariant
            used <= i,
            i <= n || i == used,
            out@ =~= old(out)@ + Seq::new((i - used) as nat, |k: int| ' '),
        decreases n - i,
    {
        out.push(' ');
        i += 1;
    }
}

fn push_padded(out: &mut String, s: &str, n: usize)
    ensures
        final(out)@ == old(out)@ + padded(s@, n as int),
{
    out.push_str(s);
    let chars = chars_of(s);
    push_spaces(out, chars.len(), n);
    assert(out@ =~= old(out)@ + padded(s@, n as int));
}

fn push_indented(out: &mut String, s: &str, n: usize)
    ensures
        final(out)@ == old(out)@ + indented(s@, n as int),
{
    let chars = chars_of(s);
    push_spaces(out, chars.len(), n);
    out.push_str(s);
    assert(out@ =~= old(out)@ + indented(s@, n as int));
}

/// What is said of a variable.
pub open spec fn var_line(name: Seq<char>, v: Var) -> Seq<char> {
    "  "@ + padded(name, 22) + " "@ + (match v.text {
        Some(t) => t@,
        None => "<unset>"@,
    }) + "\n"@
}

fn push_var(out: &mut String, name: &str, v: &Var)
    ensures
        final(out)@ == old(out)@ + var_line(name@, *v),
{
    out.push_str("  ");
    push_padded(out, name, 22);
    out.push_str(" ");
    match &v.text {
        Some(t) => {
            out.push_str(t.as_str());
        },
        None => {
            out.push_str("<unset>");
        },
    }
    out.push_str("\n");
    assert(out@ =~= old(out)@ + var_line(name@, *v));
}

/// What is said of the environment.
pub open spec fn env_lines(e: Env) -> Seq<char> {
    var_line("TERM"@, e.term) + var_line("TERM_PROGRAM"@, e.program) + var_line(
        "KITTY_WINDOW_ID"@,
        e.kitty_window,
    ) + var_line("GHOSTTY_RESOURCES_DIR"@, e.ghostty_resources) + var_line(
        "GHOSTTY_BIN_DIR"@,
        e.ghostty_bin,
    ) + var_line("WEZTERM_EXECUTABLE"@, e.wezterm) + var_line("SSH_TTY"@, e.ssh_tty) + var_line(
        "SSH_CONNECTION"@,
        e.ssh_connection,
    )
}

/// Two numbers with an `x` between them.
pub open spec fn pair(a: u32, b: u32) -> Seq<char> {
    text::dec(a as nat) + "x"@ + text::dec(b as nat)
}

fn push_pair(out: &mut String, a: u32, b: u32)
    ensures
        final(out)@ == old(out)@ + pair(a, b),
{
    push_dec(out, a as u64);
    out.push_str("x");
    push_dec(out, b as u64);
    assert(out@ =~= old(out)@ + pair(a, b));
}

/// What a protocol is called.
pub open spec fn called(p: Protocol) -> Seq<char> {
    match p {
        Protocol::Kitty => "Kitty"@,
        Protocol::Unknown => "None"@,
    }
}

fn push_called(out: &mut String, p: Protocol)
    ensures
        final(out)@ == old(out)@ + called(p),
{
    match p {
        Protocol::Kitty => {
            out.push_str("Kitty");
        },
        Protocol::Unknown => {
            out.push_str("None");
        },
    }
}

/// What is said of the round trip to the terminal.
pub open spec fn link_line(m: Measured, ceiling: u64) -> Seq<char> {
    "  link round trip        "@ + (match m {
        Measured::NotNeeded => "<not measured, environment sufficed>"@,
        Measured::NoTty => "<not measured, no terminal to ask>"@,
        Measured::Link(Some(rtt)) => text::dec((rtt / 1000) as nat) + "ms (replies given "@
            + text::dec(
            (between(4 * rtt, LOCAL_CEILING as int, ceiling as int) / 1000) as nat,
        ) + "ms)"@,
        Measured::Link(None) => "<silent for "@ + text::dec((ceiling / 1000) as nat)
            + "ms, gave up>"@,
    }) + "\n"@
}

fn push_link(out: &mut String, m: &Measured, ceiling: u64)
    requires
        LOCAL_CEILING <= ceiling,
    ensures
        final(out)@ == old(out)@ + link_line(*m, ceiling),
{
    out.push_str("  link round trip        ");
    match m {
        Measured::NotNeeded => {
            out.push_str("<not measured, environment sufficed>");
        },
        Measured::NoTty => {
            out.push_str("<not measured, no terminal to ask>");
        },
        Measured::Link(Some(rtt)) => {
            push_dec(out, *rtt / 1000);
            out.push_str("ms (replies given ");
            push_dec(out, reply_budget(*rtt, ceiling) / 1000);
            out.push_str("ms)");
        },
        Measured::Link(None) => {
            out.push_str("<silent for ");
            push_dec(out, ceiling / 1000);
            out.push_str("ms, gave up>");
        },
    }
    out.push_str("\n");
    assert(out@ =~= old(out)@ + link_line(*m, ceiling));
}

/// What is said of the kernel's report.
pub open spec fn report_lines(report: Option<Report>) -> Seq<char> {
    "  ioctl cells            "@ + pair(size_of(report).0, size_of(report).1)
        + "\n  ioctl cell pixels      "@ + (match cell_of(report) {
        Some(c) => pair(c.w, c.h),
        None => "<not reported>"@,
    }) + "\n"@
}

fn push_report(out: &mut String, report: Option<Report>)
    ensures
        final(out)@ == old(out)@ + report_lines(report),
{
    let (cols, rows, cell) = window_size(report);
    out.push_str("  ioctl cells            ");
    push_pair(out, cols, rows);
    out.push_str("\n  ioctl cell pixels      ");
    match cell {
        Some(c) => {
            push_pair(out, c.w, c.h);
        },
        None => {
            out.push_str("<not reported>");
        },
    }
    out.push_str("\n");
    assert(out@ =~= old(out)@ + report_lines(report));
}

/// What is said of the protocol the environment tells of.
pub open spec fn told_line(e: Env) -> Seq<char> {
    "  protocol from env      "@ + (match e.tells() {
        Some(p) => called(p),
        None => "<undecided, will query>"@,
    }) + "\n"@
}

/// What is said of the terminal that was found.
pub open spec fn found_lines(t: Terminal) -> Seq<char> {
    "  cell size used         "@ + pair(t.cell.w, t.cell.h) + "\n  protocol               "@
        + called(t.protocol) + "\n"@
}

/// An account of what detection saw.
pub open spec fn account(e: Env, report: Option<Report>, m: Measured, t: Terminal) -> Seq<char> {
    env_lines(e) + report_lines(report) + told_line(e) + link_line(m, e.ceiling()) + found_lines(t)
}

fn push_env(out: &mut String, e: &Env)
    ensures
        final(out)@ == old(out)@ + env_lines(*e),
{
    push_var(out, "TERM", &e.term);
    push_var(out, "TERM_PROGRAM", &e.program);
    push_var(out, "KITTY_WINDOW_ID", &e.kitty_window);
    push_var(out, "GHOSTTY_RESOURCES_DIR", &e.ghostty_resources);
    push_var(out, "GHOSTTY_BIN_DIR", &e.ghostty_bin);
    push_var(out, "WEZTERM_EXECUTABLE", &e.wezterm);
    push_var(out, "SSH_TTY", &e.ssh_tty);
    push_var(out, "SSH_CONNECTION", &e.ssh_connection);
    assert(out@ =~= old(out)@ + env_lines(*e));
}

/// A human-readable account of what detection saw, for `--probe`.
pub fn explain(e: &Env, report: Option<Report>, m: &Measured, t: &Terminal) -> (r: String)
    ensures
        r@ == account(*e, report, *m, *t),
{
    let mut out = String::new();
    push_env(&mut out, e);
    push_report(&mut out, report);
    out.push_str("  protocol from env      ");
    match protocol_from_env(e) {
        Some(p) => {
            push_called(&mut out, p);
        },
        None => {
            out.push_str("<undecided, will query>");
        },
    }
    out.push_str("\n");
    push_link(&mut out, m, reply_ceiling(e));
    out.push_str("  cell size used         ");
    push_pair(&mut out, t.cell.w, t.cell.h);
    out.push_str("\n  protocol               ");
    push_called(&mut out, t.protocol);
    out.push_str("\n");
    assert(out@ =~= account(*e, report, *m, *t));
    out
}

/// The heights an image is tried at, to see which a terminal takes.
pub open spec fn rung(n: int) -> u32 {
    if n == 0 {
        8192
    } else if n == 1 {
        8500
    } else if n == 2 {
        9000
    } else if n == 3 {
        9500
    } else if n == 4 {
        10000
    } else if n == 5 {
        11000
    } else {
        12000
    }
}

/// The heights an image is tried at, to see which a terminal takes.
pub fn rungs() -> (r: Vec<u32>)
    ensures
        r@ == Seq::new(7, |n: int| rung(n)),
{
    let mut out: Vec<u32> = Vec::new();
    out.push(8192);
    out.push(8500);
    out.push(9000);
    out.push(9500);
    out.push(10000);
    out.push(11000);
    out.push(12000);
    assert(out@ =~= Seq::new(7, |n: int| rung(n)));
    out
}

/// How long the answer to a command of a trial is waited for, in microseconds.
pub const TRIAL_WAIT: u64 = 400_000;

/// How long a complaint about a chunk that is not the last is waited for, in microseconds.
pub const CHUNK_WAIT: u64 = 1_000;

/// How long the reply to the `k`th of `n` chunks is waited for. Only the last can draw a complaint
/// worth waiting for.
pub fn chunk_wait(k: usize, n: usize) -> (r: u64)
    ensures
        r == (if k + 1 == n {
            TRIAL_WAIT
        } else {
            CHUNK_WAIT
        }),
{
    if n > 0 && k == n - 1 {
        TRIAL_WAIT
    } else {
        CHUNK_WAIT
    }
}

/// Take in the reply to the `k`th of `n` chunks: what is said of an image is what was said to its last
/// chunk.
pub fn hear(stored: &mut String, k: usize, n: usize, reply: &[u8])
    ensures
        final(stored)@ == (if k + 1 == n {
            said_in(reply@)
        } else {
            old(stored)@
        }),
{
    if n > 0 && k == n - 1 {
        *stored = said(reply);
    }
}

/// A command that places a screenful of the image stored under `id`, and wants failures told.
pub open spec fn trial(id: u32, w: u32, view_h: u32) -> Seq<char> {
    "\x1b_Ga=p,i="@ + text::dec(id as nat) + ",x=0,y=0,w="@ + text::dec(w as nat) + ",h="@
        + text::dec(view_h as nat) + ",c=24,r=1,q=1;\x1b\\"@
}

/// A command that places a screenful of the image stored under `id`.
pub fn try_place(id: u32, w: u32, view_h: u32) -> (r: String)
    ensures
        r@ == trial(id, w, view_h),
{
    let mut out = String::new();
    out.push_str("\x1b_Ga=p,i=");
    push_dec(&mut out, id as u64);
    out.push_str(",x=0,y=0,w=");
    push_dec(&mut out, w as u64);
    out.push_str(",h=");
    push_dec(&mut out, view_h as u64);
    out.push_str(",c=24,r=1,q=1;\x1b\\");
    assert(out@ =~= trial(id, w, view_h));
    out
}

/// Whether a graphics command has been answered.
pub fn graphics_answered(b: &[u8]) -> (r: bool)
    ensures
        r == holds(b@, seq![0x1bu8, 0x5c]),
{
    let reply: [u8; 2] = [0x1b, 0x5c];
    assert(reply@ =~= seq![0x1bu8, 0x5c]);
    find_bytes(b, reply.as_slice(), 0).is_some()
}

/// Whether `c` is around a reply rather than of it.
pub open spec fn is_wrapping(c: char) -> bool {
    text::is_control(c) || c == '\\'
}

/// `s` without what is wrapped around it in front.
pub open spec fn unwrapped_front(s: Seq<char>) -> Seq<char>
    decreases s.len(),
{
    if s.len() > 0 && is_wrapping(s[0]) {
        unwrapped_front(s.skip(1))
    } else {
        s
    }
}

/// `s` without what is wrapped around it behind.
pub open spec fn unwrapped_back(s: Seq<char>) -> Seq<char>
    decreases s.len(),
{
    if s.len() > 0 && is_wrapping(s.last()) {
        unwrapped_back(s.drop_last())
    } else {
        s
    }
}

/// What a terminal said to a command, or its silence, which is the good answer: successes are
/// suppressed and only failures come back.
pub open spec fn said_in(reply: Seq<u8>) -> Seq<char> {
    if reply.len() == 0 {
        "accepted (no complaint)"@
    } else {
        unwrapped_back(unwrapped_front(text::lossy_text(reply)))
    }
}

fn wrapping(c: char) -> (r: bool)
    ensures
        r == is_wrapping(c),
{
    control(c) || c == '\\'
}

/// What a terminal said to a command, or its silence.
pub fn said(reply: &[u8]) -> (r: String)
    ensures
        r@ == said_in(reply@),
{
    let mut out = String::new();
    if reply.len() == 0 {
        out.push_str("accepted (no complaint)");
        assert(out@ =~= said_in(reply@));
        return out;
    }
    let words = text::lossy(reply);
    let chars = chars_of(words.as_str());
    let n: usize = chars.len();
    let mut i: usize = 0;
    assert(chars@.subrange(0, n as int) =~= chars@);
    while i < n && wrapping(chars[i])
        invariant
            i <= n == chars@.len(),
            unwrapped_front(chars@) == unwrapped_front(chars@.subrange(i as int, n as int)),
        decreases n - i,
    {
        assert(chars@.subrange(i as int, n as int).skip(1) =~= chars@.subrange(i + 1, n as int));
        i += 1;
    }
    let ghost front = chars@.subrange(i as int, n as int);
    assert(front == unwrapped_front(chars@));
    let mut j: usize = n;
    while i < j && wrapping(chars[j - 1])
        invariant
            i <= j <= n == chars@.len(),
            unwrapped_back(front) == unwrapped_back(chars@.subrange(i as int, j as int)),
        decreases j - i,
    {
        assert(chars@.subrange(i as int, j as int).drop_last() =~= chars@.subrange(i as int, j - 1));
        j -= 1;
    }
    push_chars(&mut out, vstd::slice::slice_subrange(chars.as_slice(), i, j));
    assert(out@ =~= said_in(reply@));
    out
}

/// `a / b` to the nearest whole number; a half goes to the even one.
pub open spec fn nearest_even(a: int, b: int) -> int {
    let (q, r) = (a / b, a % b);
    if 2 * r > b || (2 * r == b && q % 2 == 1) {
        q + 1
    } else {
        q
    }
}

/// What is said of one height that was tried.
pub open spec fn rung_line(w: u32, h: u32, stored: Seq<char>, placed: Seq<char>) -> Seq<char> {
    "  "@ + text::dec(w as nat) + " x "@ + padded(text::dec(h as nat), 6) + " "@ + indented(
        text::dec(nearest_even(4 * (w * h), 1_000_000) as nat),
        5,
    ) + " MB  store: "@ + padded(stored, 26) + " place: "@ + placed + "\n"@
}

/// What is said of one height that was tried.
pub fn rung_text(w: u32, h: u32, stored: &str, placed: &str) -> (r: String)
    ensures
        r@ == rung_line(w, h, stored@, placed@),
{
    proof {
        geometry::lemma_product(w as int, h as int);
    }
    let bytes: u128 = 4 * (w as u128 * h as u128);
    let (q, rest): (u128, u128) = (bytes / 1_000_000, bytes % 1_000_000);
    let mb: u128 = if 2 * rest > 1_000_000 || (2 * rest == 1_000_000 && q % 2 == 1) {
        q + 1
    } else {
        q
    };
    let mut tall = String::new();
    push_dec(&mut tall, h as u64);
    assert(tall@ =~= text::dec(h as nat));
    let mut size = String::new();
    push_dec(&mut size, mb as u64);
    assert(size@ =~= text::dec(mb as nat));
    let mut out = String::new();
    out.push_str("  ");
    push_dec(&mut out, w as u64);
    out.push_str(" x ");
    push_padded(&mut out, tall.as_str(), 6);
    out.push_str(" ");
    push_indented(&mut out, size.as_str(), 5);
    out.push_str(" MB  store: ");
    push_padded(&mut out, stored, 26);
    out.push_str(" place: ");
    out.push_str(placed);
    out.push_str("\n");
    assert(out@ =~= rung_line(w, h, stored@, placed@));
    out
}

/// The environment tells of a terminal that speaks the protocol where its type names kitty or ghostty,
/// its program is ghostty, kitty or WezTerm, or one of their own variables is set, and of none otherwise.
pub proof fn law_the_environment_names_the_terminal(e: Env)
    ensures
        ({
            let (term, program) = (e.term.value(), e.program.value());
            let named = |n: Seq<char>|
                exists|i: int| 0 <= i && i + n.len() <= term.len() && #[trigger] term.subrange(
                    i,
                    i + n.len(),
                ) == n;
            let told = named("kitty"@) || named("ghostty"@) || program == "ghostty"@ || program
                == "kitty"@ || program == "WezTerm"@ || e.kitty_window.set || e.ghostty_resources.set
                || e.ghostty_bin.set || e.wezterm.set;
            &&& told ==> e.tells() == Some(Protocol::Kitty)
            &&& !told ==> e.tells() is None
            &&& e.remote() == (e.ssh_tty.set || e.ssh_connection.set)
            &&& e.remote() ==> e.ceiling() == REMOTE_CEILING
            &&& !e.remote() ==> e.ceiling() == LOCAL_CEILING
        }),
{
    let term = e.term.value();
    lemma_holds(term, "kitty"@);
    lemma_holds(term, "ghostty"@);
}

proof fn lemma_holds<T>(hay: Seq<T>, needle: Seq<T>)
    ensures
        holds(hay, needle) <==> exists|i: int|
            0 <= i && i + needle.len() <= hay.len() && #[trigger] hay.subrange(i, i + needle.len())
                == needle,
{
    text::lemma_first_from(hay, needle, 0);
    if holds(hay, needle) {
        let i = text::first_from(hay, needle, 0)->0;
        assert(hay.subrange(i, i + needle.len()) == needle);
    }
    if exists|i: int|
        0 <= i && i + needle.len() <= hay.len() && #[trigger] hay.subrange(i, i + needle.len())
            == needle {
        let i = choose|i: int|
            0 <= i && i + needle.len() <= hay.len() && #[trigger] hay.subrange(i, i + needle.len())
                == needle;
        assert(text::occurs_at(hay, needle, i));
    }
}

/// A version that names kitty, ghostty, WezTerm or Konsole anywhere is that of a terminal that speaks the
/// protocol, and no other is.
pub proof fn law_a_version_names_the_terminal(a: Seq<u8>, b: Seq<u8>, reply: Seq<u8>)
    ensures
        protocol_in(a + seq![0x6bu8, 0x69, 0x74, 0x74, 0x79] + b) == Protocol::Kitty,
        protocol_in(a + seq![0x67u8, 0x68, 0x6f, 0x73, 0x74, 0x74, 0x79] + b) == Protocol::Kitty,
        protocol_in(a + seq![0x57u8, 0x65, 0x7a, 0x54, 0x65, 0x72, 0x6d] + b) == Protocol::Kitty,
        protocol_in(a + seq![0x4bu8, 0x6f, 0x6e, 0x73, 0x6f, 0x6c, 0x65] + b) == Protocol::Kitty,
        (forall|i: int|
            0 <= i < reply.len() ==> #[trigger] reply[i] != 0x6b && reply[i] != 0x67 && reply[i] != 0x57
                && reply[i] != 0x4b) ==> protocol_in(reply) == Protocol::Unknown,
{
    lemma_stands_in(a, kitty_bytes(), b);
    lemma_stands_in(a, ghostty_bytes(), b);
    lemma_stands_in(a, wezterm_bytes(), b);
    lemma_stands_in(a, konsole_bytes(), b);
    if forall|i: int|
        0 <= i < reply.len() ==> #[trigger] reply[i] != 0x6b && reply[i] != 0x67 && reply[i] != 0x57
            && reply[i] != 0x4b {
        lemma_first_letter(reply, kitty_bytes());
        lemma_first_letter(reply, ghostty_bytes());
        lemma_first_letter(reply, wezterm_bytes());
        lemma_first_letter(reply, konsole_bytes());
    }
}

proof fn lemma_stands_in(a: Seq<u8>, n: Seq<u8>, b: Seq<u8>)
    ensures
        holds(a + n + b, n),
{
    let all = a + n + b;
    let i = a.len() as int;
    assert(all.subrange(i, i + n.len()) =~= n);
    lemma_holds(all, n);
}

proof fn lemma_first_letter(reply: Seq<u8>, n: Seq<u8>)
    requires
        n.len() > 0,
        forall|i: int| 0 <= i < reply.len() ==> #[trigger] reply[i] != n[0],
    ensures
        !holds(reply, n),
{
    lemma_holds(reply, n);
    if holds(reply, n) {
        let i = choose|i: int|
            0 <= i && i + n.len() <= reply.len() && #[trigger] reply.subrange(i, i + n.len()) == n;
        assert(reply.subrange(i, i + n.len())[0] == reply[i]);
    }
}

/// A terminal is as large as the kernel says, and eighty columns of twenty-four rows where it says
/// nothing; a cell is as many whole pixels as come to each, where it says how many there are.
pub proof fn law_a_terminal_is_as_large_as_reported(r: Report)
    requires
        r.cols > 0,
        r.rows > 0,
    ensures
        size_of(Some(r)) == (r.cols as u32, r.rows as u32),
        size_of(None) == (80u32, 24u32),
        cell_of(None) is None,
        r.wide >= 2 * r.cols && r.tall >= 4 * r.rows ==> (cell_of(Some(r)) matches Some(c) && c.w
            * r.cols <= r.wide < (c.w + 1) * r.cols && c.h * r.rows <= r.tall < (c.h + 1) * r.rows),
        r.wide < 2 * r.cols || r.tall < 4 * r.rows ==> cell_of(Some(r)) is None,
{
    geometry::lemma_quotient(r.wide as int, r.cols as int);
    geometry::lemma_quotient(r.tall as int, r.rows as int);
}

/// A reply tells of a cell's size height first, and neither may be nothing.
pub proof fn law_a_reply_tells_height_first(h: u32, w: u32)
    ensures
        w > 0 && h > 0 ==> size_in(text::dec(h as nat) + seq![';'] + text::dec(w as nat)) == Some(
            CellSize { w, h },
        ),
        w == 0 || h == 0 ==> size_in(text::dec(h as nat) + seq![';'] + text::dec(w as nat)) is None,
{
    let (a, b) = (text::dec(h as nat), text::dec(w as nat));
    let s = a + seq![';'] + b;
    let at = a.len() as int;
    text::law_a_number_reads_back(h as nat);
    text::law_a_number_reads_back(w as nat);
    lemma_digits_alone(a);
    lemma_digits_alone(b);
    assert(s.subrange(at, at + 1) =~= seq![';']);
    assert forall|j: int| 0 <= j < at implies !text::occurs_at(s, seq![';'], j) by {
        if text::occurs_at(s, seq![';'], j) {
            assert(s.subrange(j, j + 1)[0] == a[j]);
            assert(text::is_digit(a[j]));
        }
    }
    text::lemma_first_from(s, seq![';'], 0);
    assert(text::occurs_at(s, seq![';'], at));
    assert(text::first_from(s, seq![';'], 0) == Some(at));
    assert(s.take(at) =~= a);
    assert(s.skip(at + 1) =~= b);
}

proof fn lemma_digits_alone(d: Seq<char>)
    requires
        text::all_digits(d),
        d.len() > 0,
    ensures
        text::trim(d) == d,
        parted(d) == (d, None::<Seq<char>>),
        text::unsigned(d) == d,
{
    assert(text::is_digit(d[0]));
    assert(text::is_digit(d[d.len() - 1]));
    text::lemma_first_from(d, seq![';'], 0);
    if let Some(at) = text::first_from(d, seq![';'], 0) {
        assert(d.subrange(at, at + 1)[0] == d[at]);
        assert(text::is_digit(d[at]));
    }
}

/// A terminal is asked for its status first, then for the size of a cell and for its version, each only
/// where it is not known. It is waited for four times as long as it took to answer, within bounds.
pub proof fn law_a_terminal_is_asked_in_order(d: Detection, rtt: u64)
    requires
        d.wf(),
    ensures
        d.measured is None ==> d.asks() == Some(Question::Status(d.ceiling)),
        d.measured == Some(Measured::Link(Some(rtt))) ==> ({
            let wait = if 4 * rtt < LOCAL_CEILING {
                LOCAL_CEILING as int
            } else if 4 * rtt > d.ceiling {
                d.ceiling as int
            } else {
                4 * rtt
            };
            &&& d.cell is None && !d.asked_cell ==> d.asks() == Some(Question::Cell(wait as u64))
            &&& (d.cell is Some || d.asked_cell) && d.protocol is None && !d.asked_version ==> d.asks()
                == Some(Question::Version(wait as u64))
            &&& (d.cell is Some || d.asked_cell) && (d.protocol is Some || d.asked_version)
                ==> d.asks() is None
        }),
        Question::Status(rtt).asked() == "\x1b[5n"@,
        Question::Cell(rtt).asked() == "\x1b[16t"@,
        Question::Version(rtt).asked() == "\x1b[>q\x1b[5n"@,
{
}

proof fn lemma_first_is(hay: Seq<u8>, needle: Seq<u8>, from: int, n: int)
    requires
        0 <= from <= n,
        text::occurs_at(hay, needle, n),
        forall|k: int| from <= k < n ==> !text::occurs_at(hay, needle, k),
    ensures
        text::first_from(hay, needle, from) == Some(n),
    decreases n - from,
{
    if from < n {
        lemma_first_is(hay, needle, from + 1, n);
    }
}

proof fn lemma_no_earlier(hay: Seq<u8>, needle: Seq<u8>, from: int, n: int)
    requires
        needle.len() > 0,
        forall|k: int| from <= k < n && 0 <= k < hay.len() ==> #[trigger] hay[k] != needle[0],
    ensures
        forall|k: int| from <= k < n ==> !text::occurs_at(hay, needle, k),
{
    assert forall|k: int| from <= k < n implies !text::occurs_at(hay, needle, k) by {
        if text::occurs_at(hay, needle, k) {
            assert(hay.subrange(k, k + needle.len())[0] == hay[k]);
        }
    }
}

proof fn lemma_cell_found(a: Seq<u8>, body: Seq<u8>, rest: Seq<u8>, reply: Seq<u8>)
    requires
        forall|i: int| 0 <= i < a.len() ==> #[trigger] a[i] != 0x1b,
        forall|i: int| 0 <= i < body.len() ==> #[trigger] body[i] != 0x74,
        reply == a + cell_reply() + body + seq![0x74u8] + rest,
    ensures
        ({
            let at = a.len() as int;
            let end = at + 4 + body.len();
            &&& text::first_from(reply, cell_reply(), 0) == Some(at)
            &&& text::first_from(reply, seq![0x74u8], at + 4) == Some(end)
            &&& text::first_from(reply, seq![0x74u8], at) == Some(end)
            &&& reply.subrange(at + 4, end) == body
        }),
{
    let at = a.len() as int;
    let end = at + 4 + body.len();
    let t = seq![0x74u8];
    let c = cell_reply();
    assert(reply.subrange(at, at + 4) =~= c);
    assert(reply.subrange(end, end + 1) =~= t);
    assert(reply.subrange(at + 4, end) =~= body);
    assert forall|k: int| 0 <= k < at implies #[trigger] reply[k] != c[0] by {
        assert(reply[k] == a[k]);
    }
    assert forall|k: int| at <= k < end implies #[trigger] reply[k] != t[0] by {
        if k < at + 4 {
            assert(reply[k] == c[k - at]);
        } else {
            assert(reply[k] == body[k - at - 4]);
        }
    }
    lemma_no_earlier(reply, c, 0, at);
    lemma_no_earlier(reply, t, at, end);
    lemma_first_is(reply, c, 0, at);
    lemma_first_is(reply, t, at + 4, end);
    lemma_first_is(reply, t, at, end);
}

/// A reply to a question for the cell size is heard wherever it stands among what came in: what is
/// between its beginning and the first `t` behind it tells the size.
pub proof fn law_a_cell_size_is_heard(a: Seq<u8>, body: Seq<u8>, rest: Seq<u8>)
    requires
        forall|i: int| 0 <= i < a.len() ==> #[trigger] a[i] != 0x1b,
        forall|i: int| 0 <= i < body.len() ==> #[trigger] body[i] != 0x74,
        vstd::utf8::valid_utf8(body),
    ensures
        ({
            let reply = a + seq![0x1bu8, 0x5b, 0x36, 0x3b] + body + seq![0x74u8] + rest;
            &&& cell_in(reply) == size_in(vstd::utf8::decode_utf8(body))
            &&& cell_told(reply)
        }),
{
    let reply = a + seq![0x1bu8, 0x5b, 0x36, 0x3b] + body + seq![0x74u8] + rest;
    lemma_cell_found(a, body, rest, reply);
}

/// A drain window becomes the longer of what it was and the round trip, cut off at what there is.
pub proof fn law_a_drain_lasts_a_round_trip(window: int, rtt: int)
    requires
        DRAIN_GRACE <= window <= MAX_GRACE,
    ensures
        window <= rtt <= MAX_GRACE ==> widened(window, rtt) == rtt,
        rtt <= window ==> widened(window, rtt) == window,
        rtt >= MAX_GRACE ==> widened(window, rtt) == MAX_GRACE,
{
}

/// A size is said in the whole number that is nearest to it, and of two that are as near in the even one.
pub proof fn law_a_size_is_said_to_the_nearest(a: int, b: int)
    requires
        0 <= a,
        0 < b,
    ensures
        -b <= 2 * (nearest_even(a, b) * b - a) <= b,
        2 * (nearest_even(a, b) * b - a) == b || 2 * (nearest_even(a, b) * b - a) == -b ==> nearest_even(
            a,
            b,
        ) % 2 == 0,
{
    vstd::arithmetic::div_mod::lemma_fundamental_div_mod(a, b);
    let q = a / b;
    assert((q + 1) * b == b * q + b && q * b == b * q) by (nonlinear_arith);
    assert(0 <= a % b < b) by (nonlinear_arith)
        requires
            0 < b,
    ;
}

/// Text that is filled up keeps what it says, and has nothing but spaces behind or in front of it; longer
/// text is left as it is.
pub proof fn law_text_is_filled_up_with_spaces(s: Seq<char>, n: int, i: int)
    ensures
        s.len() >= n ==> padded(s, n) == s && indented(s, n) == s,
        s.len() <= n ==> padded(s, n).len() == n && indented(s, n).len() == n,
        0 <= i < s.len() ==> padded(s, n)[i] == s[i],
        s.len() <= i < n ==> padded(s, n)[i] == ' ',
        s.len() <= n && n - s.len() <= i < n ==> indented(s, n)[i] == s[i - (n - s.len())],
        0 <= i < n - s.len() ==> indented(s, n)[i] == ' ',
{
    if s.len() >= n {
        assert(padded(s, n) =~= s);
        assert(indented(s, n) =~= s);
    }
}

/// What a terminal said is told without the control characters and backslashes around it, and with those
/// that stand in it; silence is told as consent.
pub proof fn law_a_reply_is_told_without_its_wrapping(
    reply: Seq<u8>,
    front: Seq<char>,
    said: Seq<char>,
    back: Seq<char>,
)
    requires
        text::lossy_text(reply) == front + said + back,
        forall|i: int|
            0 <= i < front.len() ==> text::is_control(#[trigger] front[i]) || front[i] == '\\',
        forall|i: int|
            0 <= i < back.len() ==> text::is_control(#[trigger] back[i]) || back[i] == '\\',
        said.len() > 0,
        !text::is_control(said[0]) && said[0] != '\\',
        !text::is_control(said.last()) && said.last() != '\\',
    ensures
        reply.len() > 0 ==> said_in(reply) == said,
        reply.len() == 0 ==> said_in(reply) == "accepted (no complaint)"@,
{
    let rest = said + back;
    assert(front + said + back =~= front + rest);
    lemma_unwrapped_front(front, rest);
    lemma_unwrapped_back(said, back);
}

proof fn lemma_unwrapped_front(front: Seq<char>, rest: Seq<char>)
    requires
        forall|i: int| 0 <= i < front.len() ==> is_wrapping(#[trigger] front[i]),
        rest.len() > 0,
        !is_wrapping(rest[0]),
    ensures
        unwrapped_front(front + rest) == rest,
    decreases front.len(),
{
    if front.len() == 0 {
        assert(front + rest =~= rest);
    } else {
        assert(is_wrapping(front[0]));
        assert((front + rest).skip(1) =~= front.skip(1) + rest);
        lemma_unwrapped_front(front.skip(1), rest);
    }
}

proof fn lemma_unwrapped_back(said: Seq<char>, back: Seq<char>)
    requires
        forall|i: int| 0 <= i < back.len() ==> is_wrapping(#[trigger] back[i]),
        said.len() > 0,
        !is_wrapping(said.last()),
    ensures
        unwrapped_back(said + back) == said,
    decreases back.len(),
{
    if back.len() == 0 {
        assert(said + back =~= said);
    } else {
        assert(is_wrapping(back[back.len() - 1]));
        assert((said + back).drop_last() =~= said + back.drop_last());
        lemma_unwrapped_back(said, back.drop_last());
    }
}

/// The heights that are tried go up from that of a band to half as much again.
pub proof fn law_taller_is_tried_after_shorter(r: Vec<u32>, i: int, j: int)
    requires
        call_ensures(rungs, (), r),
        0 <= i < j < r@.len(),
    ensures
        8192 == r@[0] <= r@[i] < r@[j] <= r@.last() == 12000,
{
}

/// A trial shows the image it names from its corner on, as wide and tall as was asked.
pub proof fn law_a_trial_shows_what_was_asked(id: u32, w: u32, view_h: u32)
    ensures
        holds(trial(id, w, view_h), ",w="@ + text::dec(w as nat) + ",h="@ + text::dec(view_h as nat) + ","@),
        text::occurs_at(trial(id, w, view_h), "\x1b_Ga=p,i="@ + text::dec(id as nat) + ",x=0,y=0,"@, 0),
{
    let t = trial(id, w, view_h);
    reveal_strlit("\x1b_Ga=p,i=");
    reveal_strlit(",x=0,y=0,");
    reveal_strlit(",x=0,y=0,w=");
    reveal_strlit(",w=");
    reveal_strlit(",h=");
    reveal_strlit(",");
    reveal_strlit(",c=24,r=1,q=1;\x1b\\");
    let head = "\x1b_Ga=p,i="@ + text::dec(id as nat) + ",x=0,y=0,"@;
    assert(t.subrange(0, head.len() as int) =~= head);
    let ask = ",w="@ + text::dec(w as nat) + ",h="@ + text::dec(view_h as nat) + ","@;
    let at = head.len() - 1;
    assert(t.subrange(at, at + ask.len()) =~= ask);
    lemma_holds(t, ask);
}

proof fn lemma_holds_at<T>(hay: Seq<T>, n: Seq<T>, i: int)
    requires
        0 <= i,
        i + n.len() <= hay.len(),
        hay.subrange(i, i + n.len()) == n,
    ensures
        holds(hay, n),
{
    text::lemma_first_from(hay, n, 0);
    assert(text::occurs_at(hay, n, i));
}

proof fn lemma_holds_left<T>(a: Seq<T>, b: Seq<T>, n: Seq<T>)
    requires
        holds(a, n),
    ensures
        holds(a + b, n),
{
    text::lemma_first_from(a, n, 0);
    let i = text::first_from(a, n, 0)->0;
    assert((a + b).subrange(i, i + n.len()) =~= a.subrange(i, i + n.len()));
    lemma_holds_at(a + b, n, i);
}

proof fn lemma_holds_right<T>(a: Seq<T>, b: Seq<T>, n: Seq<T>)
    requires
        holds(b, n),
    ensures
        holds(a + b, n),
{
    text::lemma_first_from(b, n, 0);
    let i = text::first_from(b, n, 0)->0;
    let k = a.len() + i;
    assert((a + b).subrange(k, k + n.len()) =~= b.subrange(i, i + n.len()));
    lemma_holds_at(a + b, n, k);
}

proof fn lemma_holds_wider<T>(a: Seq<T>, b: Seq<T>, n: Seq<T>)
    ensures
        holds(a, n) || holds(b, n) ==> holds(a + b, n),
        holds(n, n),
{
    assert(n.subrange(0, n.len() as int) =~= n);
    lemma_holds_at(n, n, 0);
    if holds(a, n) {
        lemma_holds_left(a, b, n);
    } else if holds(b, n) {
        lemma_holds_right(a, b, n);
    }
}

/// What is said of a variable: what it is set to, or that it is not.
pub open spec fn var_said(v: Var) -> Seq<char> {
    match v.text {
        Some(t) => t@,
        None => "<unset>"@,
    }
}

proof fn lemma_var_line(name: Seq<char>, lead: Seq<char>, v: Var)
    requires
        lead == "  "@ + padded(name, 22) + " "@,
    ensures
        var_line(name, v) == lead + var_said(v) + "\n"@,
{
}

proof fn lemma_said_of_term(e: Env)
    ensures
        holds(env_lines(e), "  TERM                   "@ + var_said(e.term) + "\n"@),
{
    let lead = "  TERM                   "@;
    reveal_strlit("  TERM                   ");
    reveal_strlit("TERM");
    reveal_strlit("  ");
    reveal_strlit(" ");
    assert(lead =~= "  "@ + padded("TERM"@, 22) + " "@);
    lemma_var_line("TERM"@, lead, e.term);
    lemma_env_lines(e, var_line("TERM"@, e.term));
}

proof fn lemma_said_of_program(e: Env)
    ensures
        holds(env_lines(e), "  TERM_PROGRAM           "@ + var_said(e.program) + "\n"@),
{
    let lead = "  TERM_PROGRAM           "@;
    reveal_strlit("  TERM_PROGRAM           ");
    reveal_strlit("TERM_PROGRAM");
    reveal_strlit("  ");
    reveal_strlit(" ");
    assert(lead =~= "  "@ + padded("TERM_PROGRAM"@, 22) + " "@);
    lemma_var_line("TERM_PROGRAM"@, lead, e.program);
    lemma_env_lines(e, var_line("TERM_PROGRAM"@, e.program));
}

proof fn lemma_said_of_kitty_window(e: Env)
    ensures
        holds(env_lines(e), "  KITTY_WINDOW_ID        "@ + var_said(e.kitty_window) + "\n"@),
{
    let lead = "  KITTY_WINDOW_ID        "@;
    reveal_strlit("  KITTY_WINDOW_ID        ");
    reveal_strlit("KITTY_WINDOW_ID");
    reveal_strlit("  ");
    reveal_strlit(" ");
    assert(lead =~= "  "@ + padded("KITTY_WINDOW_ID"@, 22) + " "@);
    lemma_var_line("KITTY_WINDOW_ID"@, lead, e.kitty_window);
    lemma_env_lines(e, var_line("KITTY_WINDOW_ID"@, e.kitty_window));
}

proof fn lemma_said_of_ghostty_resources(e: Env)
    ensures
        holds(env_lines(e), "  GHOSTTY_RESOURCES_DIR  "@ + var_said(e.ghostty_resources) + "\n"@),
{
    let lead = "  GHOSTTY_RESOURCES_DIR  "@;
    reveal_strlit("  GHOSTTY_RESOURCES_DIR  ");
    reveal_strlit("GHOSTTY_RESOURCES_DIR");
    reveal_strlit("  ");
    reveal_strlit(" ");
    assert(lead =~= "  "@ + padded("GHOSTTY_RESOURCES_DIR"@, 22) + " "@);
    lemma_var_line("GHOSTTY_RESOURCES_DIR"@, lead, e.ghostty_resources);
    lemma_env_lines(e, var_line("GHOSTTY_RESOURCES_DIR"@, e.ghostty_resources));
}

proof fn lemma_said_of_ghostty_bin(e: Env)
    ensures
        holds(env_lines(e), "  GHOSTTY_BIN_DIR        "@ + var_said(e.ghostty_bin) + "\n"@),
{
    let lead = "  GHOSTTY_BIN_DIR        "@;
    reveal_strlit("  GHOSTTY_BIN_DIR        ");
    reveal_strlit("GHOSTTY_BIN_DIR");
    reveal_strlit("  ");
    reveal_strlit(" ");
    assert(lead =~= "  "@ + padded("GHOSTTY_BIN_DIR"@, 22) + " "@);
    lemma_var_line("GHOSTTY_BIN_DIR"@, lead, e.ghostty_bin);
    lemma_env_lines(e, var_line("GHOSTTY_BIN_DIR"@, e.ghostty_bin));
}

proof fn lemma_said_of_wezterm(e: Env)
    ensures
        holds(env_lines(e), "  WEZTERM_EXECUTABLE     "@ + var_said(e.wezterm) + "\n"@),
{
    let lead = "  WEZTERM_EXECUTABLE     "@;
    reveal_strlit("  WEZTERM_EXECUTABLE     ");
    reveal_strlit("WEZTERM_EXECUTABLE");
    reveal_strlit("  ");
    reveal_strlit(" ");
    assert(lead =~= "  "@ + padded("WEZTERM_EXECUTABLE"@, 22) + " "@);
    lemma_var_line("WEZTERM_EXECUTABLE"@, lead, e.wezterm);
    lemma_env_lines(e, var_line("WEZTERM_EXECUTABLE"@, e.wezterm));
}

proof fn lemma_said_of_ssh_tty(e: Env)
    ensures
        holds(env_lines(e), "  SSH_TTY                "@ + var_said(e.ssh_tty) + "\n"@),
{
    let lead = "  SSH_TTY                "@;
    reveal_strlit("  SSH_TTY                ");
    reveal_strlit("SSH_TTY");
    reveal_strlit("  ");
    reveal_strlit(" ");
    assert(lead =~= "  "@ + padded("SSH_TTY"@, 22) + " "@);
    lemma_var_line("SSH_TTY"@, lead, e.ssh_tty);
    lemma_env_lines(e, var_line("SSH_TTY"@, e.ssh_tty));
}

proof fn lemma_said_of_ssh_connection(e: Env)
    ensures
        holds(env_lines(e), "  SSH_CONNECTION         "@ + var_said(e.ssh_connection) + "\n"@),
{
    let lead = "  SSH_CONNECTION         "@;
    reveal_strlit("  SSH_CONNECTION         ");
    reveal_strlit("SSH_CONNECTION");
    reveal_strlit("  ");
    reveal_strlit(" ");
    assert(lead =~= "  "@ + padded("SSH_CONNECTION"@, 22) + " "@);
    lemma_var_line("SSH_CONNECTION"@, lead, e.ssh_connection);
    lemma_env_lines(e, var_line("SSH_CONNECTION"@, e.ssh_connection));
}

proof fn lemma_env_lines(e: Env, n: Seq<char>)
    requires
        n == var_line("TERM"@, e.term)
            || n == var_line("TERM_PROGRAM"@, e.program)
            || n == var_line("KITTY_WINDOW_ID"@, e.kitty_window)
            || n == var_line("GHOSTTY_RESOURCES_DIR"@, e.ghostty_resources)
            || n == var_line("GHOSTTY_BIN_DIR"@, e.ghostty_bin)
            || n == var_line("WEZTERM_EXECUTABLE"@, e.wezterm)
            || n == var_line("SSH_TTY"@, e.ssh_tty)
            || n == var_line("SSH_CONNECTION"@, e.ssh_connection),
    ensures
        holds(env_lines(e), n),
{
    let l0 = var_line("TERM"@, e.term);
    lemma_holds_wider(n, n, n);
    let a1 = var_line("TERM_PROGRAM"@, e.program);
    let l1 = l0 + a1;
    lemma_holds_wider(l0, a1, n);
    let a2 = var_line("KITTY_WINDOW_ID"@, e.kitty_window);
    let l2 = l1 + a2;
    lemma_holds_wider(l1, a2, n);
    let a3 = var_line("GHOSTTY_RESOURCES_DIR"@, e.ghostty_resources);
    let l3 = l2 + a3;
    lemma_holds_wider(l2, a3, n);
    let a4 = var_line("GHOSTTY_BIN_DIR"@, e.ghostty_bin);
    let l4 = l3 + a4;
    lemma_holds_wider(l3, a4, n);
    let a5 = var_line("WEZTERM_EXECUTABLE"@, e.wezterm);
    let l5 = l4 + a5;
    lemma_holds_wider(l4, a5, n);
    let a6 = var_line("SSH_TTY"@, e.ssh_tty);
    let l6 = l5 + a6;
    lemma_holds_wider(l5, a6, n);
    let a7 = var_line("SSH_CONNECTION"@, e.ssh_connection);
    let l7 = l6 + a7;
    lemma_holds_wider(l6, a7, n);
    assert(l7 == env_lines(e));
}

/// An account says of each variable of the environment under its name what it is set to, and that it is
/// not set where it is not.
pub proof fn law_an_account_says_what_is_set(e: Env, report: Option<Report>, m: Measured, t: Terminal)
    ensures
        ({
            let all = account(e, report, m, t);
            &&& holds(all, "  TERM                   "@ + var_said(e.term) + "\n"@)
            &&& holds(all, "  TERM_PROGRAM           "@ + var_said(e.program) + "\n"@)
            &&& holds(all, "  KITTY_WINDOW_ID        "@ + var_said(e.kitty_window) + "\n"@)
            &&& holds(all, "  GHOSTTY_RESOURCES_DIR  "@ + var_said(e.ghostty_resources) + "\n"@)
            &&& holds(all, "  GHOSTTY_BIN_DIR        "@ + var_said(e.ghostty_bin) + "\n"@)
            &&& holds(all, "  WEZTERM_EXECUTABLE     "@ + var_said(e.wezterm) + "\n"@)
            &&& holds(all, "  SSH_TTY                "@ + var_said(e.ssh_tty) + "\n"@)
            &&& holds(all, "  SSH_CONNECTION         "@ + var_said(e.ssh_connection) + "\n"@)
        }),
{
    lemma_said_of_term(e);
    lemma_account_holds(e, report, m, t, "  TERM                   "@ + var_said(e.term) + "\n"@);
    lemma_said_of_program(e);
    lemma_account_holds(e, report, m, t, "  TERM_PROGRAM           "@ + var_said(e.program) + "\n"@);
    lemma_said_of_kitty_window(e);
    lemma_account_holds(e, report, m, t, "  KITTY_WINDOW_ID        "@ + var_said(e.kitty_window) + "\n"@);
    lemma_said_of_ghostty_resources(e);
    lemma_account_holds(e, report, m, t, "  GHOSTTY_RESOURCES_DIR  "@ + var_said(e.ghostty_resources) + "\n"@);
    lemma_said_of_ghostty_bin(e);
    lemma_account_holds(e, report, m, t, "  GHOSTTY_BIN_DIR        "@ + var_said(e.ghostty_bin) + "\n"@);
    lemma_said_of_wezterm(e);
    lemma_account_holds(e, report, m, t, "  WEZTERM_EXECUTABLE     "@ + var_said(e.wezterm) + "\n"@);
    lemma_said_of_ssh_tty(e);
    lemma_account_holds(e, report, m, t, "  SSH_TTY                "@ + var_said(e.ssh_tty) + "\n"@);
    lemma_said_of_ssh_connection(e);
    lemma_account_holds(e, report, m, t, "  SSH_CONNECTION         "@ + var_said(e.ssh_connection) + "\n"@);
}

proof fn lemma_account_holds(e: Env, report: Option<Report>, m: Measured, t: Terminal, n: Seq<char>)
    ensures
        holds(env_lines(e), n) || holds(report_lines(report), n) || holds(told_line(e), n) || holds(
            link_line(m, e.ceiling()),
            n,
        ) || holds(found_lines(t), n) ==> holds(account(e, report, m, t), n),
{
    let (a, b, c, d, f) = (
        env_lines(e),
        report_lines(report),
        told_line(e),
        link_line(m, e.ceiling()),
        found_lines(t),
    );
    lemma_holds_wider(a, b, n);
    lemma_holds_wider(a + b, c, n);
    lemma_holds_wider(a + b + c, d, n);
    lemma_holds_wider(a + b + c + d, f, n);
}

/// An account says how many cells there are across and down, how large one is, and whether the terminal
/// that was found shows pictures.
pub proof fn law_an_account_says_what_was_found(e: Env, report: Option<Report>, m: Measured, t: Terminal)
    ensures
        ({
            let all = account(e, report, m, t);
            let (cols, rows) = size_of(report);
            &&& holds(all, "ioctl cells            "@ + (text::dec(cols as nat) + "x"@ + text::dec(rows as nat)))
            &&& holds(
                all,
                "cell size used         "@ + (text::dec(t.cell.w as nat) + "x"@ + text::dec(t.cell.h as nat)),
            )
            &&& t.protocol == Protocol::Kitty ==> holds(all, "\n  protocol               Kitty\n"@)
            &&& t.protocol == Protocol::Unknown ==> holds(all, "\n  protocol               None\n"@)
        }),
{
    let (cols, rows) = size_of(report);
    let cells = pair(cols, rows);
    let size = pair(t.cell.w, t.cell.h);
    lemma_report_says(report);
    lemma_found_says(t);
    lemma_account_holds(e, report, m, t, "ioctl cells            "@ + cells);
    lemma_account_holds(e, report, m, t, "cell size used         "@ + size);
    lemma_account_holds(e, report, m, t, "\n  protocol               Kitty\n"@);
    lemma_account_holds(e, report, m, t, "\n  protocol               None\n"@);
}

proof fn lemma_report_says(report: Option<Report>)
    ensures
        holds(
            report_lines(report),
            "ioctl cells            "@ + pair(size_of(report).0, size_of(report).1),
        ),
{
    let n = "ioctl cells            "@ + pair(size_of(report).0, size_of(report).1);
    let all = report_lines(report);
    reveal_strlit("ioctl cells            ");
    reveal_strlit("  ioctl cells            ");
    let at: int = 2;
    assert(all.subrange(at, at + n.len()) =~= n);
    lemma_holds(all, n);
}

proof fn lemma_found_says(t: Terminal)
    ensures
        holds(found_lines(t), "cell size used         "@ + pair(t.cell.w, t.cell.h)),
        t.protocol == Protocol::Kitty ==> holds(
            found_lines(t),
            "\n  protocol               Kitty\n"@,
        ),
        t.protocol == Protocol::Unknown ==> holds(
            found_lines(t),
            "\n  protocol               None\n"@,
        ),
{
    let size = pair(t.cell.w, t.cell.h);
    let n = "cell size used         "@ + size;
    let all = found_lines(t);
    let head = "  cell size used         "@ + size;
    reveal_strlit("cell size used         ");
    reveal_strlit("  cell size used         ");
    let at: int = 2;
    assert(all.subrange(at, at + n.len()) =~= n);
    lemma_holds(all, n);
    lemma_protocol_line(t.protocol);
    let tail = "\n  protocol               "@ + called(t.protocol) + "\n"@;
    assert(all =~= head + tail);
    lemma_holds_wider(head, tail, tail);
    lemma_holds_wider(tail, tail, tail);
}

proof fn lemma_protocol_line(p: Protocol)
    ensures
        p == Protocol::Kitty ==> "\n  protocol               "@ + called(p) + "\n"@
            == "\n  protocol               Kitty\n"@,
        p == Protocol::Unknown ==> "\n  protocol               "@ + called(p) + "\n"@
            == "\n  protocol               None\n"@,
{
    reveal_strlit("\n  protocol               ");
    reveal_strlit("\n");
    reveal_strlit("Kitty");
    reveal_strlit("None");
    reveal_strlit("\n  protocol               Kitty\n");
    reveal_strlit("\n  protocol               None\n");
    assert(p == Protocol::Kitty ==> "\n  protocol               "@ + called(p) + "\n"@
        =~= "\n  protocol               Kitty\n"@);
    assert(p == Protocol::Unknown ==> "\n  protocol               "@ + called(p) + "\n"@
        =~= "\n  protocol               None\n"@);
}

} // verus!
