//! What the viewer does with what it is told: keys, loads, resizes.

use vstd::prelude::*;

use crate::render::kitty;
use crate::render::kitty::{emit, forget, Encoded, Quiet, Sending};
use crate::source::index;
use crate::source::index::Hit;
use crate::source::Kind;
use crate::text;
use crate::tui::draw;
use crate::tui::draw::{document, spinner_text, status_line, PATIENCE, SPIN_TICK};
use crate::tui::keys;
use crate::tui::keys::{graphics_error, keys_from, type_into, Key, Typed};
use crate::tui::search;
use crate::tui::search::{first_hit, heading, step};
use crate::tui::view;
use crate::tui::view::{go_to_end, pan, snap, zoom_by, Aim, Band, Shown, Zoom};

verus! {

/// How long to block on input before looking for a terminal resize, in milliseconds.
//
// polling rather than a SIGWINCH handler: the ioctl costs
// microseconds, and a handler can only safely set a flag
pub const TICK: u64 = 250;

/// How long to wait for the rest of a keypress that arrived in pieces, in milliseconds.
//
// a local pty delivers an arrow key's three bytes whole, but
// an ssh session may split them across two reads, and a
// buffer cut after the escape decodes as the escape key
pub const CONTINUATION: u64 = 50;

/// The same wait under an ssh session, in milliseconds.
pub const CONTINUATION_SSH: u64 = 200;

/// The viewer: what is on screen, what it looks at, what is being searched.
#[derive(Debug)]
pub struct Viewer {
    /// The terminal's size in cells.
    pub cells: (u32, u32),
    /// The names of the files.
    pub names: Vec<String>,
    /// Which of them is shown.
    pub file: usize,
    pub shown: Option<Shown>,
    pub failure: Option<String>,
    pub aim: Aim,
    /// Whether the file is yet to be loaded.
    pub load: bool,
    /// What the status line says instead of the help text.
    pub note: Option<String>,
    /// The search so far, while one is being typed.
    pub typing: Option<Vec<u8>>,
    pub query: String,
    /// Where the current query was found.
    pub hits: Vec<Hit>,
    pub hit: usize,
    /// Which way the search that is being typed will run.
    pub seek: i32,
    /// Whether the screen is yet to be drawn.
    pub dirty: bool,
}

/// The viewer, with its texts as characters.
#[verifier::ext_equal]
pub struct State {
    pub cells: (u32, u32),
    pub names: Seq<Seq<char>>,
    pub file: int,
    pub shown: Option<Shown>,
    pub failure: Option<Seq<char>>,
    pub aim: Aim,
    pub load: bool,
    pub note: Option<Seq<char>>,
    pub typing: Option<Seq<u8>>,
    pub query: Seq<char>,
    pub hits: Seq<Hit>,
    pub hit: int,
    pub seek: int,
    pub dirty: bool,
}

/// Bytes that may be, as a sequence.
pub open spec fn bytes_in(b: Option<Vec<u8>>) -> Option<Seq<u8>> {
    match b {
        Some(b) => Some(b@),
        None => None,
    }
}

impl View for Viewer {
    type V = State;

    open spec fn view(&self) -> State {
        State {
            cells: self.cells,
            names: text::strings(self.names@),
            file: self.file as int,
            shown: self.shown,
            failure: draw::chars(self.failure),
            aim: self.aim,
            load: self.load,
            note: draw::chars(self.note),
            typing: bytes_in(self.typing),
            query: self.query@,
            hits: self.hits@,
            hit: self.hit as int,
            seek: self.seek as int,
            dirty: self.dirty,
        }
    }
}

impl State {
    /// Whether a file is shown, the terminal has a size, and the hits lie in the page.
    pub open spec fn wf(self) -> bool {
        &&& 0 <= self.file < self.names.len()
        &&& view::reported(self.cells)
        &&& self.aim.wf()
        &&& self.shown matches Some(s) ==> s.wf() && (s.index matches Some(ix) ==> search::in_lines(
            ix,
            self.hits,
        ))
        &&& self.hits.len() > 0 ==> 0 <= self.hit < self.hits.len()
    }

    /// What a key does. To quit is no business of the state.
    //
    // a document is laid out at the width it is drawn at, so
    // zooming it returns the same words larger rather than more
    // of them
    pub open spec fn key(self, k: Key) -> State {
        match k {
            Key::Quit => self,
            Key::Next => if self.file + 1 < self.names.len() {
                State { file: self.file + 1, load: true, ..self }
            } else {
                self
            },
            Key::Prev => if self.file > 0 {
                State { file: self.file - 1, load: true, ..self }
            } else {
                self
            },
            Key::Reset => State {
                aim: match self.shown {
                    Some(s) => view::snap_of(s, view::at_rest(s, self.cells), self.cells),
                    None => self.aim,
                },
                note: None,
                dirty: true,
                ..self
            },
            Key::Zoom(dir) => if draw::is_document(self.shown) {
                self
            } else {
                State {
                    aim: Aim { zoom: view::zoomed(self.aim.zoom, dir as int), ..self.aim },
                    dirty: true,
                    ..self
                }
            },
            Key::Search(dir) => State {
                typing: Some(seq![]),
                seek: dir as int,
                dirty: true,
                ..self
            },
            Key::Top => self.at_end(true),
            Key::Bottom => self.at_end(false),
            Key::Hit(dir) => {
                let n = self.hits.len() as int;
                let hit = if n == 0 {
                    self.hit
                } else if dir > 0 {
                    (self.hit + 1) % n
                } else {
                    (self.hit + n - 1) % n
                };
                State { hit, ..self }.on_hit()
            },
            Key::Heading(dir) => {
                let (aim, note) = search::headed(self.aim, self.shown, dir as int, self.cells);
                State { aim, note: Some(note), dirty: true, ..self }
            },
            Key::Pan(dx, dy) => State {
                aim: match self.shown {
                    Some(s) => view::panned(s, self.aim, dx as int, dy as int, self.cells),
                    None => self.aim,
                },
                dirty: true,
                ..self
            },
        }
    }

    /// At the top of the page, or at its bottom.
    pub open spec fn at_end(self, top: bool) -> State {
        State {
            aim: match self.shown {
                Some(s) => view::at_end(s, self.aim, top, self.cells),
                None => self.aim,
            },
            note: None,
            dirty: true,
            ..self
        }
    }

    /// On the hit it is on, with what is said of it.
    pub open spec fn on_hit(self) -> State {
        let (aim, note) = search::stepped(
            self.aim,
            self.shown,
            self.hits,
            self.hit,
            self.query,
            self.cells,
        );
        State { aim, note: Some(note), dirty: true, ..self }
    }

    /// What keys do from the `i`th on, one after another, and whether one of them quits.
    pub open spec fn keys(self, ks: Seq<Key>, i: int) -> (State, bool)
        decreases ks.len() - i,
    {
        if i < 0 || i >= ks.len() {
            (self, false)
        } else if ks[i] == Key::Quit {
            (self, true)
        } else {
            self.key(ks[i]).keys(ks, i + 1)
        }
    }

    /// A search that was typed is run, from where the reader is, not from the top of the document.
    pub open spec fn searched(self, typed: Seq<u8>) -> State {
        let query = text::lossy_text(typed);
        let hits = match self.shown {
            Some(s) => match s.index {
                Some(ix) => index::hits_of(index::line_models(ix.lines@), query),
                None => seq![],
            },
            None => seq![],
        };
        let hit = match self.shown {
            Some(s) => search::first_of(s, self.aim, hits, self.seek, self.cells),
            None => 0,
        };
        State { typing: None, query, hits, hit, ..self }.on_hit()
    }

    /// A complaint of the terminal's that came in with the input is what the status line says.
    pub open spec fn told(self, input: Seq<u8>) -> State {
        match keys::complaint(input, 0) {
            Some(said) => State {
                failure: Some("terminal refused the image: "@ + said),
                dirty: true,
                ..self
            },
            None => self,
        }
    }

    /// What is typed goes into the search being typed, if one is.
    pub open spec fn typed(self, input: Seq<u8>) -> State {
        match self.typing {
            None => self,
            Some(query) => {
                let (after, outcome, _) = keys::typed(query, input, 0);
                match outcome {
                    Typed::More => State { typing: Some(after), dirty: true, ..self },
                    Typed::Cancelled => State { typing: None, note: None, dirty: true, ..self },
                    Typed::Done => self.searched(after),
                }
            },
        }
    }

    /// How much of the input the search being typed takes.
    pub open spec fn taken(self, input: Seq<u8>) -> int {
        match self.typing {
            None => 0,
            Some(query) => keys::typed(query, input, 0).2,
        }
    }

    /// What a burst of input does, and whether it quits. A burst can hold a whole keystroke past the
    /// one that ends a search, so the query takes only the bytes up to it and the rest go on as keys.
    pub open spec fn input(self, input: Seq<u8>) -> (State, bool) {
        let s = self.told(input);
        s.typed(input).keys(keys::keys_of(input.skip(s.taken(input))), 0)
    }

    /// The terminal has another size. The window is a different number of rows, so the top of the view
    /// has moved off the grid.
    pub open spec fn resized(self, now: (u32, u32)) -> State {
        if now == self.cells {
            self
        } else {
            State {
                cells: now,
                aim: match self.shown {
                    Some(s) => view::snap_of(s, self.aim, now),
                    None => self.aim,
                },
                dirty: true,
                ..self
            }
        }
    }

    /// Another file is on screen.
    pub open spec fn loaded(self, fresh: Shown) -> State {
        State {
            aim: view::at_rest(fresh, self.cells),
            shown: Some(fresh),
            hits: seq![],
            note: None,
            dirty: false,
            ..self
        }
    }

    /// A file could not be loaded.
    pub open spec fn failed(self, message: Seq<char>) -> State {
        State { failure: Some(message), shown: None, dirty: true, ..self }
    }

    /// What the status line says, with `note` in place of the help text.
    pub open spec fn line(self, note: Option<Seq<char>>) -> Seq<char> {
        draw::status(
            self.names[self.file],
            self.file as nat,
            self.names.len(),
            self.failure,
            note,
            draw::is_document(self.shown),
            draw::percent_of(self.aim),
        )
    }

    /// The screen, with `note` in place of the help text.
    pub open spec fn screen(self, note: Option<Seq<char>>) -> Seq<char> {
        draw::screen(self.shown, self.aim, self.cells, self.line(note), self.hits, self.hit)
    }

    /// What stands in place of the help text: the search being typed, or a note.
    pub open spec fn remark(self) -> Option<Seq<char>> {
        match self.typing {
            Some(query) => Some("/"@ + text::lossy_text(query)),
            None => self.note,
        }
    }
}

/// What transmits the first `n` bands of a page, to be stored and not shown.
pub open spec fn sending(bands: Seq<Band>, payloads: Seq<Encoded>, n: int) -> Seq<char>
    decreases n,
{
    if n <= 0 {
        seq![]
    } else {
        sending(bands, payloads, n - 1) + kitty::transmission(
            Sending {
                w: payloads[n - 1].w,
                h: payloads[n - 1].h,
                id: bands[n - 1].id,
                display: false,
                cells: None,
                quiet: Quiet::ErrorsOnly,
            },
            payloads[n - 1].payload@,
        )
    }
}

/// What drops every one of `bands` from the terminal's memory.
pub open spec fn dropping(bands: Seq<Band>) -> Seq<char>
    decreases bands.len(),
{
    if bands.len() == 0 {
        seq![]
    } else {
        dropping(bands.drop_last()) + kitty::forgetting(bands.last().id)
    }
}

/// What drops what was shown from the terminal's memory.
pub open spec fn dropping_shown(shown: Option<Shown>) -> Seq<char> {
    match shown {
        Some(s) => dropping(s.bands@),
        None => seq![],
    }
}

fn send_all(out: &mut String, bands: &Vec<Band>, payloads: &Vec<Encoded>)
    requires
        payloads@.len() == bands@.len(),
    ensures
        final(out)@ == old(out)@ + sending(bands@, payloads@, bands@.len() as int),
{
    let mut i: usize = 0;
    assert(old(out)@ + sending(bands@, payloads@, 0) =~= old(out)@);
    while i < bands.len()
        invariant
            i <= bands@.len(),
            payloads@.len() == bands@.len(),
            out@ == old(out)@ + sending(bands@, payloads@, i as int),
        decreases bands.len() - i,
    {
        emit(out, &payloads[i], bands[i].id, false, None, Quiet::ErrorsOnly);
        assert(out@ =~= old(out)@ + sending(bands@, payloads@, i + 1));
        i += 1;
    }
}

/// Drop every band of what was shown from the terminal's memory.
pub fn forget_all(out: &mut String, shown: &Option<Shown>)
    ensures
        final(out)@ == old(out)@ + dropping_shown(*shown),
{
    match shown {
        None => {
            assert(old(out)@ + dropping_shown(*shown) =~= old(out)@);
        },
        Some(s) => {
            let mut i: usize = 0;
            assert(old(out)@ + dropping(s.bands@.take(0)) =~= old(out)@);
            while i < s.bands.len()
                invariant
                    i <= s.bands@.len(),
                    out@ == old(out)@ + dropping(s.bands@.take(i as int)),
                decreases s.bands.len() - i,
            {
                assert(s.bands@.take(i + 1).drop_last() =~= s.bands@.take(i as int));
                forget(out, s.bands[i].id);
                assert(out@ =~= old(out)@ + dropping(s.bands@.take(i + 1)));
                i += 1;
            }
            assert(s.bands@.take(i as int) =~= s.bands@);
        },
    }
}

impl Viewer {
    /// A viewer over files of those names, on a terminal of that size, about to load the first.
    pub fn new(names: Vec<String>, cells: (u32, u32)) -> (r: Viewer)
        requires
            names@.len() > 0,
            view::reported(cells),
        ensures
            r@.wf(),
            r@ == (State {
                cells,
                names: text::strings(names@),
                file: 0,
                shown: None,
                failure: None,
                aim: Aim { zoom: Zoom { num: 1, den: 1 }, cx: 0, cy: 0, heading: None },
                load: true,
                note: None,
                typing: None,
                query: seq![],
                hits: seq![],
                hit: 0,
                seek: 1,
                dirty: true,
            }),
    {
        let r = Viewer {
            cells,
            names,
            file: 0,
            shown: None,
            failure: None,
            aim: Aim { zoom: Zoom { num: 1, den: 1 }, cx: 0, cy: 0, heading: None },
            load: true,
            note: None,
            typing: None,
            query: String::new(),
            hits: Vec::new(),
            hit: 0,
            seek: 1,
            dirty: true,
        };
        assert(r@.query =~= seq![]);
        assert(r@.hits =~= seq![]);
        r
    }

    /// The file to load, if one is yet to be.
    pub fn wanted(&mut self) -> (r: Option<usize>)
        requires
            old(self)@.wf(),
        ensures
            final(self)@.wf(),
            old(self)@.load ==> r == Some(old(self).file) && final(self)@ == (State {
                load: false,
                failure: None,
                ..old(self)@
            }),
            !old(self)@.load ==> r is None && final(self)@ == old(self)@,
    {
        if self.load {
            self.load = false;
            self.failure = None;
            Some(self.file)
        } else {
            None
        }
    }

    fn on_hit(&mut self)
        requires
            old(self)@.wf(),
        ensures
            final(self)@.wf(),
            final(self)@ == old(self)@.on_hit(),
    {
        let mut aim = self.aim;
        let said = step(
            &mut aim,
            &self.shown,
            self.hits.as_slice(),
            self.hit,
            self.query.as_str(),
            self.cells,
        );
        self.aim = aim;
        self.note = Some(said);
        self.dirty = true;
    }

    fn end(&mut self, top: bool)
        requires
            old(self)@.wf(),
        ensures
            final(self)@.wf(),
            final(self)@ == old(self)@.at_end(top),
    {
        let mut aim = self.aim;
        if let Some(s) = &self.shown {
            go_to_end(&mut aim, s, top, self.cells);
        }
        self.aim = aim;
        self.note = None;
        self.dirty = true;
    }

    /// Do what a key asks for. To quit is left to the caller.
    pub fn key(&mut self, k: Key)
        requires
            old(self)@.wf(),
        ensures
            final(self)@.wf(),
            final(self)@ == old(self)@.key(k),
    {
        match k {
            Key::Quit => {},
            Key::Next => {
                let count: usize = self.names.len();
                if count - self.file > 1 {
                    self.file = self.file + 1;
                    self.load = true;
                }
            },
            Key::Prev => {
                if self.file > 0 {
                    self.file = self.file - 1;
                    self.load = true;
                }
            },
            Key::Reset => {
                let mut aim = self.aim;
                if let Some(s) = &self.shown {
                    aim = Aim::reset(s, self.cells);
                    snap(&mut aim, s, self.cells);
                }
                self.aim = aim;
                self.note = None;
                self.dirty = true;
            },
            Key::Zoom(dir) => {
                if !document(&self.shown) {
                    self.aim = Aim {
                        zoom: zoom_by(self.aim.zoom, dir),
                        cx: self.aim.cx,
                        cy: self.aim.cy,
                        heading: self.aim.heading,
                    };
                    self.dirty = true;
                }
            },
            Key::Search(dir) => {
                self.typing = Some(Vec::new());
                self.seek = dir;
                self.dirty = true;
            },
            Key::Top => {
                self.end(true);
            },
            Key::Bottom => {
                self.end(false);
            },
            Key::Hit(dir) => {
                let n: usize = self.hits.len();
                if n > 0 {
                    self.hit = if dir > 0 {
                        if self.hit + 1 == n {
                            0
                        } else {
                            self.hit + 1
                        }
                    } else if self.hit == 0 {
                        n - 1
                    } else {
                        self.hit - 1
                    };
                    proof {
                        let h = old(self)@.hit;
                        vstd::arithmetic::div_mod::lemma_small_mod(self.hit as nat, n as nat);
                        if dir > 0 && h + 1 == n {
                            vstd::arithmetic::div_mod::lemma_mod_self_0(n as int);
                        }
                        if dir <= 0 && h > 0 {
                            vstd::arithmetic::div_mod::lemma_mod_add_multiples_vanish(
                                h - 1,
                                n as int,
                            );
                            assert((h + n - 1) % n as int == (h - 1) % n as int);
                        }
                    }
                }
                self.on_hit();
            },
            Key::Heading(dir) => {
                let mut aim = self.aim;
                let said = heading(&mut aim, &self.shown, dir, self.cells);
                self.aim = aim;
                self.note = Some(said);
                self.dirty = true;
            },
            Key::Pan(dx, dy) => {
                let mut aim = self.aim;
                if let Some(s) = &self.shown {
                    pan(&mut aim, s, dx, dy, self.cells);
                }
                self.aim = aim;
                self.dirty = true;
            },
        }
    }

    fn run_keys(&mut self, ks: &Vec<Key>) -> (r: bool)
        requires
            old(self)@.wf(),
        ensures
            final(self)@.wf(),
            (final(self)@, r) == old(self)@.keys(ks@, 0),
    {
        let mut i: usize = 0;
        while i < ks.len()
            invariant
                i <= ks@.len(),
                self@.wf(),
                old(self)@.keys(ks@, 0) == self@.keys(ks@, i as int),
            decreases ks.len() - i,
        {
            let k = ks[i];
            if k == Key::Quit {
                return true;
            }
            self.key(k);
            i += 1;
        }
        false
    }

    fn search(&mut self, typed: Vec<u8>)
        requires
            old(self)@.wf(),
        ensures
            final(self)@.wf(),
            final(self)@ == old(self)@.searched(typed@),
    {
        let query = text::lossy(typed.as_slice());
        let hits: Vec<Hit> = match &self.shown {
            Some(s) => match &s.index {
                Some(ix) => {
                    let hits = ix.hits(query.as_str());
                    let n: usize = ix.lines.len();
                    assert(n == ix.lines@.len());
                    proof {
                        let lines = index::line_models(ix.lines@);
                        index::law_found(lines, query@);
                        assert forall|k: int| 0 <= k < hits@.len() implies (
                        #[trigger] hits@[k]).line < ix.lines@.len() by {
                            assert(index::found(lines, query@)[k] < lines.len());
                        }
                    }
                    hits
                },
                None => Vec::new(),
            },
            None => Vec::new(),
        };
        let hit: usize = match &self.shown {
            Some(s) => first_hit(s, &self.aim, hits.as_slice(), self.seek, self.cells),
            None => 0,
        };
        self.typing = None;
        self.query = query;
        self.hits = hits;
        self.hit = hit;
        assert(self@ == (State {
            typing: None,
            query: query@,
            hits: hits@,
            hit: hit as int,
            ..old(self)@
        }));
        self.on_hit();
    }

    fn tell(&mut self, input: &[u8])
        requires
            old(self)@.wf(),
        ensures
            final(self)@.wf(),
            final(self)@ == old(self)@.told(input@),
    {
        if let Some(complaint) = graphics_error(input) {
            self.failure = Some(complaint);
            self.dirty = true;
        }
    }

    fn type_in(&mut self, input: &[u8]) -> (r: usize)
        requires
            old(self)@.wf(),
        ensures
            final(self)@.wf(),
            final(self)@ == old(self)@.typed(input@),
            r == old(self)@.taken(input@),
            r <= input@.len(),
    {
        let mut typing: Option<Vec<u8>> = None;
        std::mem::swap(&mut typing, &mut self.typing);
        match typing {
            None => {
                assert(self@ =~= old(self)@);
                0
            },
            Some(buf) => {
                let mut buf = buf;
                let (outcome, taken) = type_into(&mut buf, input);
                match outcome {
                    Typed::More => {
                        self.typing = Some(buf);
                        self.dirty = true;
                    },
                    Typed::Cancelled => {
                        self.note = None;
                        self.dirty = true;
                    },
                    Typed::Done => {
                        let ghost between = self@;
                        self.search(buf);
                        assert(between.searched(buf@) == old(self)@.searched(buf@));
                    },
                }
                taken
            },
        }
    }

    /// Take a burst of input, and say whether it quits.
    pub fn input(&mut self, input: &[u8]) -> (r: bool)
        requires
            old(self)@.wf(),
        ensures
            final(self)@.wf(),
            (final(self)@, r) == old(self)@.input(input@),
    {
        self.tell(input);
        let taken: usize = self.type_in(input);
        let rest = vstd::slice::slice_subrange(input, taken, input.len());
        assert(rest@ =~= input@.skip(taken as int));
        let ks = keys_from(rest);
        self.run_keys(&ks)
    }

    /// Take note of the terminal's size.
    pub fn resized(&mut self, now: (u32, u32))
        requires
            old(self)@.wf(),
            view::reported(now),
        ensures
            final(self)@.wf(),
            final(self)@ == old(self)@.resized(now),
    {
        if now.0 != self.cells.0 || now.1 != self.cells.1 {
            self.cells = now;
            let mut aim = self.aim;
            if let Some(s) = &self.shown {
                snap(&mut aim, s, now);
            }
            self.aim = aim;
            self.dirty = true;
        }
    }

    fn draw(&self, out: &mut String, note: &Option<String>)
        requires
            self@.wf(),
        ensures
            final(out)@ == old(out)@ + self@.screen(draw::chars(*note)),
    {
        assert(self@.names[self.file as int] == self.names@[self.file as int]@);
        draw::draw(
            out,
            &self.shown,
            &self.aim,
            self.cells,
            self.names[self.file].as_str(),
            self.file,
            self.names.len(),
            &self.failure,
            note,
            self.hits.as_slice(),
            self.hit,
        );
    }

    /// Show a file that was loaded: send its bands, place it, and only then drop the one before, so the
    /// screen never shows the gap between them.
    pub fn loaded(&mut self, out: &mut String, fresh: Shown, payloads: Vec<Encoded>)
        requires
            old(self)@.wf(),
            fresh.wf(),
            payloads@.len() == fresh.bands@.len(),
        ensures
            final(self)@.wf(),
            final(self)@ == old(self)@.loaded(fresh),
            final(out)@ == old(out)@ + sending(
                fresh.bands@,
                payloads@,
                fresh.bands@.len() as int,
            ) + old(self)@.loaded(fresh).screen(None) + dropping_shown(old(self)@.shown),
    {
        self.aim = Aim::reset(&fresh, self.cells);
        send_all(out, &fresh.bands, &payloads);
        let mut previous: Option<Shown> = Some(fresh);
        std::mem::swap(&mut previous, &mut self.shown);
        self.hits = Vec::new();
        self.note = None;
        self.dirty = false;
        assert(self@ =~= old(self)@.loaded(fresh));
        self.draw(out, &None);
        forget_all(out, &previous);
        assert(out@ =~= old(out)@ + sending(
            fresh.bands@,
            payloads@,
            fresh.bands@.len() as int,
        ) + old(self)@.loaded(fresh).screen(None) + dropping_shown(old(self)@.shown));
    }

    /// Say that a file could not be loaded, and drop what was on screen.
    pub fn failed(&mut self, out: &mut String, message: String)
        requires
            old(self)@.wf(),
        ensures
            final(self)@.wf(),
            final(self)@ == old(self)@.failed(message@),
            final(out)@ == old(out)@ + dropping_shown(old(self)@.shown),
    {
        let mut previous: Option<Shown> = None;
        std::mem::swap(&mut previous, &mut self.shown);
        self.failure = Some(message);
        self.dirty = true;
        forget_all(out, &previous);
    }

    /// Say that a load came to nothing.
    pub fn lost(&mut self)
        requires
            old(self)@.wf(),
        ensures
            final(self)@.wf(),
            final(self)@ == (State { failure: Some("decode failed"@), dirty: true, ..old(self)@ }),
    {
        let mut message = String::new();
        message.push_str("decode failed");
        assert(message@ =~= "decode failed"@);
        self.failure = Some(message);
        self.dirty = true;
    }

    /// Draw the screen, if it is yet to be.
    pub fn redraw(&mut self, out: &mut String)
        requires
            old(self)@.wf(),
        ensures
            final(self)@.wf(),
            final(self)@ == (State { dirty: false, ..old(self)@ }),
            old(self)@.dirty ==> final(out)@ == old(out)@ + old(self)@.screen(
                old(self)@.remark(),
            ),
            !old(self)@.dirty ==> final(out)@ == old(out)@,
    {
        if self.dirty {
            let note: Option<String> = match &self.typing {
                Some(buf) => {
                    let mut said = String::new();
                    said.push_str("/");
                    let typed = text::lossy(buf.as_slice());
                    said.push_str(typed.as_str());
                    assert(said@ =~= "/"@ + typed@);
                    Some(said)
                },
                None => match &self.note {
                    Some(n) => Some(n.clone()),
                    None => None,
                },
            };
            assert(draw::chars(note) == self@.remark());
            self.draw(out, &note);
            self.dirty = false;
        }
    }

    /// How long to wait for input, where a load has been running for `elapsed` milliseconds, or none
    /// is. A load that takes long enough to notice is shown on the status line.
    pub fn wait(&self, out: &mut String, elapsed: Option<u64>) -> (r: u64)
        requires
            self@.wf(),
        ensures
            match elapsed {
                None => r == TICK && final(out)@ == old(out)@,
                Some(ms) => {
                    &&& r == SPIN_TICK
                    &&& ms < PATIENCE ==> final(out)@ == old(out)@
                    &&& ms >= PATIENCE ==> final(out)@ == old(out)@ + draw::status_of(
                        self@.cells,
                        draw::waiting(
                            self@.names[self@.file],
                            self@.file as nat,
                            self@.names.len(),
                            ms as int,
                        ),
                    )
                },
            },
    {
        match elapsed {
            None => TICK,
            Some(ms) => {
                if ms >= PATIENCE {
                    assert(self@.names[self.file as int] == self.names@[self.file as int]@);
                    let said = spinner_text(
                        self.names[self.file].as_str(),
                        self.file,
                        self.names.len(),
                        ms,
                    );
                    status_line(out, self.cells, said.as_str());
                }
                SPIN_TICK
            },
        }
    }
}

/// A document is drawn at 1:1 and stays so whatever key is pressed: only pictures zoom.
pub proof fn law_a_document_is_never_zoomed(s: State, k: Key)
    requires
        s.wf(),
        draw::is_document(s.shown),
        s.aim.zoom == (Zoom { num: 1, den: 1 }),
    ensures
        s.key(k).aim.zoom == (Zoom { num: 1, den: 1 }),
        s.key(k).shown == s.shown,
{
}

/// Stepping on to the next hit and back again lands on the same one.
pub proof fn law_hits_step_back(s: State)
    requires
        s.wf(),
        s.hits.len() > 0,
    ensures
        s.key(Key::Hit(1)).key(Key::Hit((-1) as i32)).hit == s.hit,
{
    let n = s.hits.len() as int;
    let next = (s.hit + 1) % n;
    if s.hit + 1 == n {
        vstd::arithmetic::div_mod::lemma_mod_self_0(n);
        vstd::arithmetic::div_mod::lemma_small_mod((n - 1) as nat, n as nat);
    } else {
        vstd::arithmetic::div_mod::lemma_small_mod((s.hit + 1) as nat, n as nat);
        vstd::arithmetic::div_mod::lemma_mod_add_multiples_vanish(s.hit, n);
        vstd::arithmetic::div_mod::lemma_small_mod(s.hit as nat, n as nat);
        assert((next + n - 1) % n == s.hit);
    }
}

/// Going on to the next file and back again comes to the same file, which is loaded anew.
pub proof fn law_files_step_back(s: State)
    requires
        s.wf(),
        s.file + 1 < s.names.len(),
    ensures
        s.key(Key::Next).key(Key::Prev) == (State { load: true, ..s }),
{
}

/// Nothing typed after a key that quits has any effect.
pub proof fn law_nothing_follows_a_quit(s: State, ks: Seq<Key>, more: Seq<Key>, i: int)
    requires
        0 <= i <= ks.len(),
        s.keys(ks, i).1,
    ensures
        s.keys(ks + more, i) == s.keys(ks, i),
    decreases ks.len() - i,
{
    if i < ks.len() {
        assert((ks + more)[i] == ks[i]);
        if ks[i] != Key::Quit {
            law_nothing_follows_a_quit(s.key(ks[i]), ks, more, i + 1);
        }
    }
}

/// Each key does what it is for and nothing else: it moves the view, or the place among the files, or
/// begins a search. What is shown, the terminal's size and the files stay.
pub proof fn law_a_key_does_what_it_is_for(s: State, p: Shown, dx: i32, dy: i32, dir: i32)
    requires
        s.shown == Some(p),
    ensures
        ({
            let drawn = State { dirty: true, ..s };
            &&& s.key(Key::Pan(dx, dy)) == (State {
                aim: view::panned(p, s.aim, dx as int, dy as int, s.cells),
                ..drawn
            })
            &&& s.key(Key::Top) == (State {
                aim: view::at_end(p, s.aim, true, s.cells),
                note: None,
                ..drawn
            })
            &&& s.key(Key::Bottom) == (State {
                aim: view::at_end(p, s.aim, false, s.cells),
                note: None,
                ..drawn
            })
            &&& s.key(Key::Reset) == (State {
                aim: view::snap_of(p, view::at_rest(p, s.cells), s.cells),
                note: None,
                ..drawn
            })
            &&& p.kind == Kind::Image ==> s.key(Key::Zoom(dir)) == (State {
                aim: Aim {
                    zoom: view::zoomed(s.aim.zoom, dir as int),
                    cx: s.aim.cx,
                    cy: s.aim.cy,
                    heading: s.aim.heading,
                },
                ..drawn
            })
            &&& p.kind == Kind::Document ==> s.key(Key::Zoom(dir)) == s
            &&& s.key(Key::Search(dir)) == (State {
                typing: Some(seq![]),
                seek: dir as int,
                ..drawn
            })
            &&& s.key(Key::Quit) == s
        }),
{
}

/// The next file is the one behind this one and the one before it the one in front, where there is one,
/// and it is then loaded; at either end the key does nothing.
pub proof fn law_files_are_gone_through_in_order(s: State)
    requires
        s.wf(),
    ensures
        s.file + 1 < s.names.len() ==> s.key(Key::Next) == (State { file: s.file + 1, load: true, ..s }),
        s.file + 1 == s.names.len() ==> s.key(Key::Next) == s,
        s.file > 0 ==> s.key(Key::Prev) == (State { file: s.file - 1, load: true, ..s }),
        s.file == 0 ==> s.key(Key::Prev) == s,
{
}

/// Hits are stepped through in order, from the last on to the first again and from the first back to the
/// last, and the view goes to the one that was stepped to.
pub proof fn law_hits_are_stepped_through_in_order(s: State, dir: i32)
    requires
        s.wf(),
        s.hits.len() > 0,
    ensures
        ({
            let n = s.hits.len() as int;
            let after = s.key(Key::Hit(dir));
            &&& dir > 0 && s.hit + 1 < n ==> after.hit == s.hit + 1
            &&& dir > 0 && s.hit + 1 == n ==> after.hit == 0
            &&& dir <= 0 && s.hit > 0 ==> after.hit == s.hit - 1
            &&& dir <= 0 && s.hit == 0 ==> after.hit == n - 1
            &&& after.aim == search::stepped(
                s.aim,
                s.shown,
                s.hits,
                after.hit,
                s.query,
                s.cells,
            ).0
            &&& after.hits == s.hits
            &&& after.shown == s.shown
        }),
{
    let n = s.hits.len() as int;
    if dir > 0 {
        if s.hit + 1 == n {
            vstd::arithmetic::div_mod::lemma_mod_self_0(n);
        } else {
            vstd::arithmetic::div_mod::lemma_small_mod((s.hit + 1) as nat, n as nat);
        }
    } else {
        if s.hit == 0 {
            vstd::arithmetic::div_mod::lemma_small_mod((n - 1) as nat, n as nat);
        } else {
            vstd::arithmetic::div_mod::lemma_mod_add_multiples_vanish(s.hit - 1, n);
            vstd::arithmetic::div_mod::lemma_small_mod((s.hit - 1) as nat, n as nat);
        }
    }
}

/// A step along the headings goes the way its key points.
pub proof fn law_headings_are_stepped_along(s: State, dir: i32)
    ensures
        ({
            let (aim, note) = search::headed(s.aim, s.shown, dir as int, s.cells);
            s.key(Key::Heading(dir)) == (State { aim, note: Some(note), dirty: true, ..s })
        }),
{
}

/// A search that was typed looks for what was typed, in the lines of the page, the way it was begun.
pub proof fn law_a_search_looks_for_what_was_typed(s: State, p: Shown, ix: index::Index, typed: Seq<u8>)
    requires
        s.shown == Some(p),
        p.index == Some(ix),
    ensures
        ({
            let after = s.searched(typed);
            let query = text::lossy_text(typed);
            let hits = index::hits_of(index::line_models(ix.lines@), query);
            &&& after.query == query
            &&& after.hits == hits
            &&& after.hit == search::first_of(p, s.aim, hits, s.seek, s.cells)
            &&& after.typing is None
            &&& after.aim == search::stepped(s.aim, s.shown, hits, after.hit, query, s.cells).0
            &&& after.shown == s.shown
        }),
{
}

/// Keys act one after another, in the order they were pressed, up to one that quits.
pub proof fn law_keys_act_in_order(s: State, k: Key, ks: Seq<Key>)
    ensures
        k != Key::Quit ==> s.keys(seq![k] + ks, 0) == s.key(k).keys(ks, 0),
        k == Key::Quit ==> s.keys(seq![k] + ks, 0) == (s, true),
        s.keys(seq![], 0) == (s, false),
{
    let all = seq![k] + ks;
    assert(all[0] == k);
    if k != Key::Quit {
        lemma_keys_shift(s.key(k), k, ks, 0);
    }
}

proof fn lemma_keys_shift(s: State, k: Key, ks: Seq<Key>, i: int)
    requires
        0 <= i <= ks.len(),
    ensures
        s.keys(seq![k] + ks, i + 1) == s.keys(ks, i),
    decreases ks.len() - i,
{
    if i < ks.len() {
        assert((seq![k] + ks)[i + 1] == ks[i]);
        if ks[i] != Key::Quit {
            lemma_keys_shift(s.key(ks[i]), k, ks, i + 1);
        }
    }
}

/// A file that was loaded is shown at rest with nothing found in it yet; one that could not be is not
/// shown, and why is said. Another size of the terminal is taken as it is.
pub proof fn law_what_is_loaded_is_shown(s: State, fresh: Shown, why: Seq<char>, now: (u32, u32))
    ensures
        s.loaded(fresh).shown == Some(fresh),
        s.loaded(fresh).aim == view::at_rest(fresh, s.cells),
        s.loaded(fresh).hits.len() == 0,
        s.loaded(fresh).note is None,
        s.loaded(fresh).file == s.file,
        s.failed(why).shown is None,
        s.failed(why).failure == Some(why),
        s.failed(why).file == s.file,
        s.resized(now).cells == now,
        s.resized(now).shown == s.shown,
        s.resized(now).file == s.file,
        now != s.cells ==> s.resized(now).dirty,
{
}

/// Input is first taken by the search being typed, if one is, and what it leaves acts as keys.
pub proof fn law_a_search_being_typed_comes_first(s: State, query: Seq<u8>, input: Seq<u8>)
    requires
        s.typing == Some(query),
        keys::complaint(input, 0) is None,
    ensures
        ({
            let (after, outcome, taken) = keys::typed(query, input, 0);
            &&& outcome == Typed::More ==> s.input(input).0 == (State {
                typing: Some(after),
                dirty: true,
                ..s
            }).keys(keys::keys_of(input.skip(taken)), 0).0
            &&& outcome == Typed::Cancelled ==> s.input(input).0 == (State {
                typing: None,
                note: None,
                dirty: true,
                ..s
            }).keys(keys::keys_of(input.skip(taken)), 0).0
            &&& outcome == Typed::Done ==> s.input(input).0 == s.searched(after).keys(
                keys::keys_of(input.skip(taken)),
                0,
            ).0
        }),
        ({
            let idle = State { typing: None, ..s };
            idle.input(input) == idle.keys(keys::keys_of(input.skip(0)), 0)
        }),
{
}

/// What is sent of a page is all its bands, each stored under its own id and not shown, top to bottom;
/// what is dropped of one is all of them.
pub proof fn law_a_page_is_sent_and_dropped_whole(bands: Seq<Band>, payloads: Seq<Encoded>, n: int)
    requires
        0 <= n < bands.len(),
        payloads.len() == bands.len(),
    ensures
        sending(bands, payloads, 0).len() == 0,
        sending(bands, payloads, n + 1) == sending(bands, payloads, n) + kitty::transmission(
            (Sending {
                w: payloads[n].w,
                h: payloads[n].h,
                id: bands[n].id,
                display: false,
                cells: None,
                quiet: Quiet::ErrorsOnly,
            }),
            payloads[n].payload@,
        ),
        dropping(bands.take(n + 1)) == dropping(bands.take(n)) + kitty::forgetting(
            bands[n].id,
        ),
        dropping(seq![]).len() == 0,
{
    assert(bands.take(n + 1).drop_last() =~= bands.take(n));
}

/// What stands in place of the help text is the search being typed, behind a slash, or else what there is
/// to say; a screen shows it with the file's name, and what is shown with its hits.
pub proof fn law_a_screen_says_what_is_typed(s: State, query: Seq<u8>, note: Option<Seq<char>>)
    ensures
        s.typing == Some(query) ==> s.remark() == Some("/"@ + text::lossy_text(query)),
        s.typing is None ==> s.remark() == s.note,
        s.screen(note) == draw::screen(
            s.shown,
            s.aim,
            s.cells,
            draw::status(
                s.names[s.file],
                s.file as nat,
                s.names.len(),
                s.failure,
                note,
                s.shown matches Some(p) && p.kind == Kind::Document,
                draw::percent_of(s.aim),
            ),
            s.hits,
            s.hit,
        ),
{
}

/// What the terminal says against an image is what the status line says.
pub proof fn law_a_refusal_is_said(s: State, input: Seq<u8>, said: Seq<char>)
    requires
        keys::complaint(input, 0) == Some(said),
    ensures
        s.told(input).failure == Some("terminal refused the image: "@ + said),
        s.told(input).dirty,
        s.told(input).aim == s.aim,
        s.told(input).shown == s.shown,
{
}

/// A terminal of another size shows the same file at the same search, drawn again, with its rows on the
/// grid of the size that it has now; one of the same size changes nothing.
pub proof fn law_another_size_keeps_the_place(s: State, now: (u32, u32))
    ensures
        now == s.cells ==> s.resized(now) == s,
        now != s.cells ==> ({
            let t = s.resized(now);
            &&& t.cells == now
            &&& t.dirty
            &&& s.shown matches Some(p) ==> t.aim == view::snap_of(p, s.aim, now)
            &&& s.shown is None ==> t.aim == s.aim
            &&& t == (State { cells: now, aim: t.aim, dirty: true, ..s })
        }),
{
}

} // verus!
