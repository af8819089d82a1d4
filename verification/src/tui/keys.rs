//! What was typed.

use vstd::prelude::*;

use crate::text;
use crate::text::{bytes_at, find_bytes};

verus! {

/// What a key asks for.
#[derive(Clone, Copy, Debug, PartialEq, Eq, Structural)]
pub enum Key {
    Quit,
    /// Pan by so many fifths of the window, across and down.
    Pan(i32, i32),
    /// Zoom, closer for 1 and further off for -1.
    Zoom(i32),
    Reset,
    Next,
    Prev,
    /// Start a search, forwards for 1 and back for -1.
    Search(i32),
    /// The top or the bottom of the page.
    Top,
    Bottom,
    /// Step to another search hit, forwards for 1 and back for -1.
    Hit(i32),
    /// Step to another heading, forwards for 1 and back for -1.
    Heading(i32),
}

/// What a byte asks for.
pub open spec fn plain_key(b: u8) -> Option<Key> {
    if b == 'q' as u8 || b == 0x1b || b == 0x03 {
        Some(Key::Quit)
    } else if b == 'h' as u8 {
        Some(Key::Pan((-1) as i32, 0))
    } else if b == 'l' as u8 {
        Some(Key::Pan(1, 0))
    } else if b == 'k' as u8 {
        Some(Key::Pan(0, (-1) as i32))
    } else if b == 'j' as u8 {
        Some(Key::Pan(0, 1))
    } else if b == '+' as u8 || b == '=' as u8 {
        Some(Key::Zoom(1))
    } else if b == '-' as u8 || b == '_' as u8 {
        Some(Key::Zoom((-1) as i32))
    } else if b == '0' as u8 {
        Some(Key::Reset)
    } else if b == 'n' as u8 {
        Some(Key::Hit(1))
    } else if b == 'N' as u8 {
        Some(Key::Hit((-1) as i32))
    } else if b == '/' as u8 {
        Some(Key::Search(1))
    } else if b == '?' as u8 {
        Some(Key::Search((-1) as i32))
    } else if b == '}' as u8 {
        Some(Key::Heading(1))
    } else if b == '{' as u8 {
        Some(Key::Heading((-1) as i32))
    } else if b == 'g' as u8 {
        Some(Key::Top)
    } else if b == 'G' as u8 {
        Some(Key::Bottom)
    } else if b == 0x09 {
        Some(Key::Next)
    } else {
        None
    }
}

/// What a control sequence that ends in `b` asks for.
pub open spec fn sequence_key(b: u8) -> Option<Key> {
    if b == 'A' as u8 {
        Some(Key::Pan(0, (-1) as i32))
    } else if b == 'B' as u8 {
        Some(Key::Pan(0, 1))
    } else if b == 'C' as u8 {
        Some(Key::Pan(1, 0))
    } else if b == 'D' as u8 {
        Some(Key::Pan((-1) as i32, 0))
    } else if b == 'Z' as u8 {
        Some(Key::Prev)
    } else {
        None
    }
}

/// What the terminal's own answers begin with.
pub open spec fn apc() -> Seq<u8> {
    seq![0x1b, 0x5f]
}

/// What ends one.
pub open spec fn terminator() -> Seq<u8> {
    seq![0x1b, 0x5c]
}

/// What a control sequence begins with.
pub open spec fn csi() -> Seq<u8> {
    seq![0x1b, 0x5b]
}

/// Whether `b` ends a control sequence.
pub open spec fn is_final(b: u8) -> bool {
    0x40 <= b <= 0x7e
}

/// Where the control sequence ends whose bytes go on at `i`.
pub open spec fn final_from(buf: Seq<u8>, i: int) -> Option<int>
    decreases buf.len() - i,
{
    if i < 0 || i >= buf.len() {
        None
    } else if is_final(buf[i]) {
        Some(i)
    } else {
        final_from(buf, i + 1)
    }
}

/// A key, if there is one, in front of others.
pub open spec fn with_key(k: Option<Key>, rest: (Seq<Key>, int)) -> (Seq<Key>, int) {
    match k {
        Some(k) => (seq![k] + rest.0, rest.1),
        None => rest,
    }
}

/// The keys in `buf` from `i` on, and how far they reach. A trailing sequence that is not yet whole
/// is left, and so is a trailing escape.
//
// the terminal answers graphics commands with an APC sequence.
// q=2 is documented as suppressing failures rather than
// acknowledgements, so anything that arrives is skipped rather
// than read as typing
pub open spec fn decoded(buf: Seq<u8>, i: int) -> (Seq<Key>, int)
    decreases buf.len() - i,
    via decoded_goes_on
{
    if i < 0 || i >= buf.len() {
        (seq![], i)
    } else if text::occurs_at(buf, apc(), i) {
        match text::first_from(buf, terminator(), i) {
            Some(end) => decoded(buf, end + 2),
            None => (seq![], i),
        }
    } else if text::occurs_at(buf, csi(), i) {
        match final_from(buf, i + 2) {
            Some(end) => with_key(sequence_key(buf[end]), decoded(buf, end + 1)),
            None => (seq![], i),
        }
    } else if buf[i] == 0x1b && i + 1 == buf.len() {
        (seq![], i)
    } else {
        with_key(plain_key(buf[i]), decoded(buf, i + 1))
    }
}

#[via_fn]
proof fn decoded_goes_on(buf: Seq<u8>, i: int) {
    if 0 <= i < buf.len() {
        text::lemma_first_from(buf, terminator(), i);
        lemma_final_from(buf, i + 2);
    }
}

proof fn lemma_final_from(buf: Seq<u8>, i: int)
    requires
        0 <= i,
    ensures
        final_from(buf, i) matches Some(end) ==> i <= end < buf.len() && is_final(buf[end]),
    decreases buf.len() - i,
{
    if i < buf.len() {
        lemma_final_from(buf, i + 1);
    }
}

fn plain(b: u8) -> (r: Option<Key>)
    ensures
        r == plain_key(b),
{
    match b {
        0x71 | 0x1b | 0x03 => Some(Key::Quit),
        0x68 => Some(Key::Pan(-1, 0)),
        0x6c => Some(Key::Pan(1, 0)),
        0x6b => Some(Key::Pan(0, -1)),
        0x6a => Some(Key::Pan(0, 1)),
        0x2b | 0x3d => Some(Key::Zoom(1)),
        0x2d | 0x5f => Some(Key::Zoom(-1)),
        0x30 => Some(Key::Reset),
        0x6e => Some(Key::Hit(1)),
        0x4e => Some(Key::Hit(-1)),
        0x2f => Some(Key::Search(1)),
        0x3f => Some(Key::Search(-1)),
        0x7d => Some(Key::Heading(1)),
        0x7b => Some(Key::Heading(-1)),

        // g rather than gg, so that vim's own gg arrives
        // as two jumps to the top and still lands there
        0x67 => Some(Key::Top),
        0x47 => Some(Key::Bottom),
        0x09 => Some(Key::Next),
        _ => None,
    }
}

fn sequence(b: u8) -> (r: Option<Key>)
    ensures
        r == sequence_key(b),
{
    match b {
        0x41 => Some(Key::Pan(0, -1)),
        0x42 => Some(Key::Pan(0, 1)),
        0x43 => Some(Key::Pan(1, 0)),
        0x44 => Some(Key::Pan(-1, 0)),

        // shift-tab, which arrives as CSI Z
        0x5a => Some(Key::Prev),
        _ => None,
    }
}

fn find_final(buf: &[u8], from: usize) -> (r: Option<usize>)
    ensures
        r matches Some(at) ==> final_from(buf@, from as int) == Some(at as int) && from <= at
            < buf@.len(),
        r is None ==> final_from(buf@, from as int) is None,
{
    let mut i: usize = from;
    while i < buf.len()
        invariant
            from <= i,
            final_from(buf@, from as int) == final_from(buf@, i as int),
        decreases buf.len() - i,
    {
        if 0x40 <= buf[i] && buf[i] <= 0x7e {
            return Some(i);
        }
        i += 1;
    }
    None
}

/// Decode the keys in `buf`, and report how many bytes were consumed. A trailing escape sequence
/// that is not yet whole is left unconsumed.
pub fn decode_keys(buf: &[u8]) -> (r: (Vec<Key>, usize))
    ensures
        r.0@ == decoded(buf@, 0).0,
        r.1 == decoded(buf@, 0).1,
        r.1 <= buf@.len(),
{
    let answer: [u8; 2] = [0x1b, 0x5f];
    let end_of_answer: [u8; 2] = [0x1b, 0x5c];
    let control: [u8; 2] = [0x1b, 0x5b];
    assert(answer@ =~= apc());
    assert(end_of_answer@ =~= terminator());
    assert(control@ =~= csi());
    let mut keys: Vec<Key> = Vec::new();
    let mut i: usize = 0;
    let mut done = false;
    while !done && i < buf.len()
        invariant
            answer@ == apc(),
            end_of_answer@ == terminator(),
            control@ == csi(),
            i <= buf@.len(),
            decoded(buf@, 0).0 =~= keys@ + decoded(buf@, i as int).0,
            decoded(buf@, 0).1 == decoded(buf@, i as int).1,
            done ==> decoded(buf@, i as int) == (Seq::<Key>::empty(), i as int),
        decreases
            buf.len() - i,
            if done {
                0int
            } else {
                1int
            },
    {
        if bytes_at(buf, answer.as_slice(), i) {
            match find_bytes(buf, end_of_answer.as_slice(), i) {
                Some(end) => {
                    i = end + 2;
                },
                None => {
                    done = true;
                },
            }
        } else if bytes_at(buf, control.as_slice(), i) {
            match find_final(buf, i + 2) {
                Some(end) => {
                    if let Some(k) = sequence(buf[end]) {
                        keys.push(k);
                    }
                    i = end + 1;
                },
                None => {
                    done = true;
                },
            }
        } else if buf[i] == 0x1b && i + 1 == buf.len() {
            // the caller settles what a trailing escape means
            done = true;
        } else {
            if let Some(k) = plain(buf[i]) {
                keys.push(k);
            }
            i += 1;
        }
    }
    (keys, i)
}

/// The keys of a burst that is whole: an escape still alone at its end is the escape key, not the
/// head of an unfinished sequence.
pub open spec fn keys_of(buf: Seq<u8>) -> Seq<Key> {
    let (keys, used) = decoded(buf, 0);
    if used == buf.len() - 1 && buf[used] == 0x1b {
        keys.push(Key::Quit)
    } else {
        keys
    }
}

/// Every key in `buf`, which is taken to be a complete burst.
pub fn keys_from(buf: &[u8]) -> (r: Vec<Key>)
    ensures
        r@ == keys_of(buf@),
{
    let (mut keys, used) = decode_keys(buf);
    if buf.len() - used == 1 && buf[used] == 0x1b {
        keys.push(Key::Quit);
    }
    keys
}

/// Whether more of a keypress is to come: a burst ends in the middle of one.
pub fn unfinished(buf: &[u8]) -> (r: bool)
    ensures
        r == (decoded(buf@, 0).1 < buf@.len()),
{
    decode_keys(buf).1 < buf.len()
}

/// Decoding reads a burst from the left, consumes no more than there is, and leaves only what begins
/// with an escape.
pub proof fn law_what_is_left_begins_with_escape(buf: Seq<u8>, i: int)
    requires
        0 <= i <= buf.len(),
    ensures
        i <= decoded(buf, i).1 <= buf.len(),
        decoded(buf, i).1 < buf.len() ==> buf[decoded(buf, i).1] == 0x1b,
    decreases buf.len() - i,
{
    if i < buf.len() {
        if text::occurs_at(buf, apc(), i) {
            assert(buf.subrange(i, i + 2)[0] == buf[i]);
            text::lemma_first_from(buf, terminator(), i);
            if let Some(end) = text::first_from(buf, terminator(), i) {
                law_what_is_left_begins_with_escape(buf, end + 2);
            }
        } else if text::occurs_at(buf, csi(), i) {
            assert(buf.subrange(i, i + 2)[0] == buf[i]);
            lemma_final_from(buf, i + 2);
            if let Some(end) = final_from(buf, i + 2) {
                law_what_is_left_begins_with_escape(buf, end + 1);
            }
        } else if !(buf[i] == 0x1b && i + 1 == buf.len()) {
            law_what_is_left_begins_with_escape(buf, i + 1);
        }
    }
}

proof fn lemma_occurs_in_front(a: Seq<u8>, b: Seq<u8>, needle: Seq<u8>, i: int)
    requires
        0 <= i,
        i + needle.len() <= a.len(),
    ensures
        text::occurs_at(a + b, needle, i) == text::occurs_at(a, needle, i),
{
    assert((a + b).subrange(i, i + needle.len()) =~= a.subrange(i, i + needle.len()));
}

proof fn lemma_first_in_front(a: Seq<u8>, b: Seq<u8>, needle: Seq<u8>, i: int)
    requires
        0 <= i,
        text::first_from(a, needle, i) is Some,
    ensures
        text::first_from(a + b, needle, i) == text::first_from(a, needle, i),
    decreases a.len() - i,
{
    lemma_occurs_in_front(a, b, needle, i);
    if !text::occurs_at(a, needle, i) {
        if i + needle.len() <= a.len() {
            text::lemma_first_from(a, needle, i + 1);
            lemma_first_in_front(a, b, needle, i + 1);
        }
    }
}

proof fn lemma_final_in_front(a: Seq<u8>, b: Seq<u8>, i: int)
    requires
        0 <= i,
        final_from(a, i) is Some,
    ensures
        final_from(a + b, i) == final_from(a, i),
    decreases a.len() - i,
{
    assert((a + b)[i] == a[i]);
    if !is_final(a[i]) {
        lemma_final_in_front(a, b, i + 1);
    }
}

proof fn lemma_shifted_occurs(a: Seq<u8>, k: int, needle: Seq<u8>, i: int)
    requires
        0 <= k <= i,
        k <= a.len(),
    ensures
        text::occurs_at(a.skip(k), needle, i - k) == text::occurs_at(a, needle, i),
{
    if i + needle.len() <= a.len() {
        assert(a.skip(k).subrange(i - k, i - k + needle.len()) =~= a.subrange(
            i,
            i + needle.len(),
        ));
    }
}

proof fn lemma_shifted_first(a: Seq<u8>, k: int, needle: Seq<u8>, i: int)
    requires
        0 <= k <= i,
        k <= a.len(),
    ensures
        text::first_from(a, needle, i) == match text::first_from(a.skip(k), needle, i - k) {
            Some(at) => Some(at + k),
            None => None,
        },
    decreases a.len() - i + 1,
{
    lemma_shifted_occurs(a, k, needle, i);
    if i + needle.len() <= a.len() && !text::occurs_at(a, needle, i) {
        lemma_shifted_first(a, k, needle, i + 1);
    }
}

proof fn lemma_shifted_final(a: Seq<u8>, k: int, i: int)
    requires
        0 <= k <= i,
        k <= a.len(),
    ensures
        final_from(a, i) == match final_from(a.skip(k), i - k) {
            Some(at) => Some(at + k),
            None => None,
        },
    decreases a.len() - i,
{
    if i < a.len() && !is_final(a[i]) {
        lemma_shifted_final(a, k, i + 1);
    }
}

proof fn lemma_shifted(a: Seq<u8>, k: int, i: int)
    requires
        0 <= k <= i <= a.len(),
    ensures
        decoded(a, i).0 == decoded(a.skip(k), i - k).0,
        decoded(a, i).1 == decoded(a.skip(k), i - k).1 + k,
    decreases a.len() - i,
{
    if i < a.len() {
        assert(a.skip(k)[i - k] == a[i]);
        lemma_shifted_occurs(a, k, apc(), i);
        lemma_shifted_occurs(a, k, csi(), i);
        if text::occurs_at(a, apc(), i) {
            text::lemma_first_from(a, terminator(), i);
            lemma_shifted_first(a, k, terminator(), i);
            if let Some(end) = text::first_from(a, terminator(), i) {
                lemma_shifted(a, k, end + 2);
            }
        } else if text::occurs_at(a, csi(), i) {
            lemma_final_from(a, i + 2);
            lemma_shifted_final(a, k, i + 2);
            if let Some(end) = final_from(a, i + 2) {
                assert(a.skip(k)[end - k] == a[end]);
                lemma_shifted(a, k, end + 1);
            }
        } else if !(a[i] == 0x1b && i + 1 == a.len()) {
            lemma_shifted(a, k, i + 1);
        }
    }
}

proof fn lemma_split(a: Seq<u8>, b: Seq<u8>, i: int)
    requires
        0 <= i <= a.len(),
    ensures
        ({
            let (keys, used) = decoded(a, i);
            &&& decoded(a + b, i).0 == keys + decoded(a + b, used).0
            &&& decoded(a + b, i).1 == decoded(a + b, used).1
        }),
    decreases a.len() - i,
{
    let c = a + b;
    if i < a.len() {
        assert(c[i] == a[i]);
        law_what_is_left_begins_with_escape(a, i);
        if i + 2 <= a.len() {
            lemma_occurs_in_front(a, b, apc(), i);
            lemma_occurs_in_front(a, b, csi(), i);
        }
        if text::occurs_at(a, apc(), i) {
            text::lemma_first_from(a, terminator(), i);
            if let Some(end) = text::first_from(a, terminator(), i) {
                lemma_first_in_front(a, b, terminator(), i);
                lemma_split(a, b, end + 2);
            }
        } else if text::occurs_at(a, csi(), i) {
            lemma_final_from(a, i + 2);
            if let Some(end) = final_from(a, i + 2) {
                lemma_final_in_front(a, b, i + 2);
                assert(c[end] == a[end]);
                lemma_split(a, b, end + 1);
                let (keys, used) = decoded(a, end + 1);
                assert(decoded(c, i).0 =~= decoded(a, i).0 + decoded(c, used).0);
            }
        } else if !(a[i] == 0x1b && i + 1 == a.len()) {
            if i + 1 == a.len() {
                assert(a[i] != 0x1b);
                if text::occurs_at(c, apc(), i) {
                    assert(c.subrange(i, i + 2)[0] == c[i]);
                }
                if text::occurs_at(c, csi(), i) {
                    assert(c.subrange(i, i + 2)[0] == c[i]);
                }
            }
            lemma_split(a, b, i + 1);
            let (keys, used) = decoded(a, i + 1);
            assert(decoded(c, i).0 =~= decoded(a, i).0 + decoded(c, used).0);
        }
        if decoded(a, i).1 == i {
            assert(decoded(a, i).0 =~= seq![]);
            assert(decoded(c, i).0 =~= decoded(a, i).0 + decoded(c, i).0);
        }
    } else {
        assert(decoded(c, i).0 =~= decoded(a, i).0 + decoded(c, i).0);
    }
}

/// A burst may be cut anywhere: the keys of the first part, and then those of what the first part
/// left with the second part behind it, are the keys of the whole.
pub proof fn law_a_burst_may_be_split(a: Seq<u8>, b: Seq<u8>)
    ensures
        ({
            let (keys, used) = decoded(a, 0);
            let rest = a.skip(used) + b;
            &&& decoded(a + b, 0).0 == keys + decoded(rest, 0).0
            &&& decoded(a + b, 0).1 == used + decoded(rest, 0).1
        }),
{
    let used = decoded(a, 0).1;
    law_what_is_left_begins_with_escape(a, 0);
    lemma_split(a, b, 0);
    lemma_shifted(a + b, used, used);
    assert((a + b).skip(used) =~= a.skip(used) + b);
}

/// What the terminal answers a graphics command is no typing.
pub proof fn law_answers_are_not_typing(body: Seq<u8>, rest: Seq<u8>)
    requires
        text::first_from(apc() + body + terminator(), terminator(), 0) == Some(
            (2 + body.len()) as int,
        ),
    ensures
        decoded(apc() + body + terminator() + rest, 0).0 == decoded(rest, 0).0,
{
    let a = apc() + body + terminator();
    let all = a + rest;
    assert(a.subrange(0, 2) =~= apc());
    assert(text::occurs_at(a, apc(), 0));
    lemma_occurs_in_front(a, rest, apc(), 0);
    lemma_first_in_front(a, rest, terminator(), 0);
    lemma_shifted(all, a.len() as int, a.len() as int);
    assert(all.skip(a.len() as int) =~= rest);
}

/// What a burst of input did to a search being typed.
#[derive(Clone, Copy, Debug, PartialEq, Eq, Structural)]
pub enum Typed {
    More,
    Done,
    Cancelled,
}

/// Whether `b` goes on with a character that a byte before it began.
pub open spec fn goes_on(b: u8) -> bool {
    0x80 <= b < 0xc0
}

/// A query without its last character.
//
// a whole character, not a byte: half of one left behind
// would show as a replacement and match nothing
pub open spec fn erased(s: Seq<u8>) -> Seq<u8>
    decreases s.len(),
{
    if s.len() == 0 {
        s
    } else if goes_on(s.last()) {
        erased(s.drop_last())
    } else {
        s.drop_last()
    }
}

/// What is typed into a query from byte `i` of `input` on: the query after it, what happened, and
/// how much of the input it took.
//
// anything below space is a control key this does not handle;
// the rest may be part of a multi-byte character
pub open spec fn typed(query: Seq<u8>, input: Seq<u8>, i: int) -> (Seq<u8>, Typed, int)
    decreases input.len() - i,
{
    if i < 0 || i >= input.len() {
        (query, Typed::More, input.len() as int)
    } else {
        let b = input[i];
        if b == 0x0d || b == 0x0a {
            (query, Typed::Done, i + 1)
        } else if b == 0x1b || b == 0x03 {
            (query, Typed::Cancelled, i + 1)
        } else if b == 0x7f || b == 0x08 {
            typed(erased(query), input, i + 1)
        } else if b >= 0x20 {
            typed(query.push(b), input, i + 1)
        } else {
            typed(query, input, i + 1)
        }
    }
}

fn erase(buf: &mut Vec<u8>)
    ensures
        final(buf)@ == erased(old(buf)@),
{
    let mut done = false;
    while !done && buf.len() > 0
        invariant
            !done ==> erased(buf@) == erased(old(buf)@),
            done ==> buf@ == erased(old(buf)@),
        decreases buf.len(),
    {
        let last: u8 = buf[buf.len() - 1];
        buf.pop();
        if last < 0x80 || 0xc0 <= last {
            done = true;
        }
    }
}

/// Feed `input` into the query in `buf`, stopping at the byte that ends the search. Answers what
/// happened and how much of `input` it consumed.
pub fn type_into(buf: &mut Vec<u8>, input: &[u8]) -> (r: (Typed, usize))
    ensures
        (final(buf)@, r.0, r.1 as int) == typed(old(buf)@, input@, 0),
        r.1 <= input@.len(),
{
    let mut i: usize = 0;
    while i < input.len()
        invariant
            i <= input@.len(),
            typed(old(buf)@, input@, 0) == typed(buf@, input@, i as int),
        decreases input.len() - i,
    {
        let b: u8 = input[i];
        if b == 0x0d || b == 0x0a {
            return (Typed::Done, i + 1);
        }
        if b == 0x1b || b == 0x03 {
            return (Typed::Cancelled, i + 1);
        }
        if b == 0x7f || b == 0x08 {
            erase(buf);
        } else if b >= 0x20 {
            buf.push(b);
        }
        i += 1;
    }
    (Typed::More, input.len())
}

/// A query is typed the same in one burst or in two, unless the first ends it.
pub proof fn law_a_query_accumulates(query: Seq<u8>, a: Seq<u8>, b: Seq<u8>, i: int)
    requires
        0 <= i <= a.len(),
        typed(query, a, i).1 == Typed::More,
    ensures
        ({
            let (more, _, _) = typed(query, a, i);
            let (whole, outcome, taken) = typed(query, a + b, i);
            &&& typed(more, b, 0).0 == whole
            &&& typed(more, b, 0).1 == outcome
            &&& typed(more, b, 0).2 + a.len() == taken
        }),
    decreases a.len() - i,
{
    if i < a.len() {
        let c = a[i];
        assert((a + b)[i] == c);
        let next = if c == 0x7f || c == 0x08 {
            erased(query)
        } else if c >= 0x20 {
            query.push(c)
        } else {
            query
        };
        law_a_query_accumulates(next, a, b, i + 1);
    } else {
        lemma_typed_shifted(query, a, b, 0);
    }
}

proof fn lemma_typed_shifted(query: Seq<u8>, a: Seq<u8>, b: Seq<u8>, i: int)
    requires
        0 <= i <= b.len(),
    ensures
        ({
            let (one, two) = (typed(query, b, i), typed(query, a + b, a.len() + i));
            &&& one.0 == two.0
            &&& one.1 == two.1
            &&& one.2 + a.len() == two.2
        }),
    decreases b.len() - i,
{
    if i < b.len() {
        let c = b[i];
        assert((a + b)[a.len() + i] == c);
        let next = if c == 0x7f || c == 0x08 {
            erased(query)
        } else if c >= 0x20 {
            query.push(c)
        } else {
            query
        };
        lemma_typed_shifted(next, a, b, i + 1);
    }
}

/// Backspace removes a whole character: the byte that begins it and all that go on with it.
pub proof fn law_backspace_removes_a_character(s: Seq<u8>, c: Seq<u8>)
    requires
        c.len() > 0,
        !goes_on(c[0]),
        forall|i: int| 0 < i < c.len() ==> goes_on(#[trigger] c[i]),
    ensures
        erased(s + c) == s,
    decreases c.len(),
{
    assert((s + c).last() == c.last());
    assert((s + c).drop_last() =~= s + c.drop_last());
    if c.len() > 1 {
        assert(goes_on(c[c.len() - 1]));
        law_backspace_removes_a_character(s, c.drop_last());
    } else {
        assert(s + c.drop_last() =~= s);
    }
}

/// The terminal's complaint about a graphics command in `buf` from `i` on.
//
// the protocol answers in an APC of the form
// ESC _ G <key>=<value>,... ; <message> ESC \, where the
// message is OK on success and ENOENT, EINVAL or similar
pub open spec fn complaint(buf: Seq<u8>, i: int) -> Option<Seq<char>>
    decreases buf.len() - i,
    via complaint_goes_on
{
    match text::first_from(buf, graphics_answer(), i) {
        None => None,
        Some(start) => match text::first_from(buf, terminator(), start) {
            None => None,
            Some(end) => match text::first_from(buf.take(end), seq![0x3bu8], start + 3) {
                Some(semi) if refusal(buf.subrange(semi + 1, end)) => Some(
                    text::lossy_text(buf.subrange(semi + 1, end)),
                ),
                _ => complaint(buf, end + 2),
            },
        },
    }
}

/// What an answer to a graphics command begins with.
pub open spec fn graphics_answer() -> Seq<u8> {
    seq![0x1b, 0x5f, 0x47]
}

/// Whether a message says that something was refused.
pub open spec fn refusal(message: Seq<u8>) -> bool {
    let said = text::lossy_text(message);
    said.len() > 0 && said != "OK"@
}

#[via_fn]
proof fn complaint_goes_on(buf: Seq<u8>, i: int) {
    if i >= 0 {
        text::lemma_first_from(buf, graphics_answer(), i);
        if let Some(start) = text::first_from(buf, graphics_answer(), i) {
            text::lemma_first_from(buf, terminator(), start);
        }
    }
}

/// The terminal's complaint about a graphics command, if `buf` holds one.
pub fn graphics_error(buf: &[u8]) -> (r: Option<String>)
    ensures
        match r {
            Some(s) => complaint(buf@, 0) matches Some(said) && s@
                == "terminal refused the image: "@ + said,
            None => complaint(buf@, 0) is None,
        },
{
    let answer: [u8; 3] = [0x1b, 0x5f, 0x47];
    let end_of_answer: [u8; 2] = [0x1b, 0x5c];
    let semicolon: [u8; 1] = [0x3b];
    assert(answer@ =~= graphics_answer());
    assert(end_of_answer@ =~= terminator());
    assert(semicolon@ =~= seq![0x3bu8]);
    let n: usize = buf.len();
    let mut i: usize = 0;
    loop
        invariant
            n == buf@.len(),
            answer@ == graphics_answer(),
            end_of_answer@ == terminator(),
            semicolon@ == seq![0x3bu8],
            i <= buf@.len(),
            complaint(buf@, 0) == complaint(buf@, i as int),
        decreases buf@.len() - i,
    {
        let start: usize = match find_bytes(buf, answer.as_slice(), i) {
            Some(start) => start,
            None => {
                return None;
            },
        };
        let end: usize = match find_bytes(buf, end_of_answer.as_slice(), start) {
            Some(end) => end,
            None => {
                return None;
            },
        };
        let front = vstd::slice::slice_subrange(buf, 0, end);
        assert(front@ =~= buf@.take(end as int));
        if let Some(semi) = find_bytes(front, semicolon.as_slice(), start + 3) {
            let message = vstd::slice::slice_subrange(buf, semi + 1, end);
            let said = text::lossy(message);
            if !said.as_str().is_empty() && !text::same(said.as_str(), "OK") {
                let mut out = String::new();
                out.push_str("terminal refused the image: ");
                out.push_str(said.as_str());
                assert(out@ =~= "terminal refused the image: "@ + said@);
                return Some(out);
            }
        }
        i = end + 2;
    }
}

/// The keys that `b` makes before whatever is typed behind it.
proof fn lemma_one_key(b: u8, rest: Seq<u8>)
    requires
        b != 0x1b,
    ensures
        decoded(seq![b] + rest, 0).0 == with_key(plain_key(b), decoded(rest, 0)).0,
{
    let a = seq![b];
    law_a_burst_may_be_split(a, rest);
    assert(!text::occurs_at(a, apc(), 0));
    assert(!text::occurs_at(a, csi(), 0));
    assert(decoded(a, 1) == (Seq::<Key>::empty(), 1int));
    assert(decoded(a, 0).1 == 1);
    assert(a.skip(1) + rest =~= rest);
    if let Some(k) = plain_key(b) {
        assert(decoded(a, 0).0 =~= seq![k]);
    } else {
        assert(decoded(a, 0).0 + decoded(rest, 0).0 =~= decoded(rest, 0).0);
    }
}

/// Each key asks for what it is for, whatever is typed behind it: the letters that move left, down, up
/// and right, closer and off, back to rest, to the next file, to the ends, to a search and along its
/// hits and the headings, and out.
pub proof fn law_a_key_asks_for_what_it_is_for(rest: Seq<u8>)
    ensures
        ({
            let after = decoded(rest, 0).0;
            let of = |b: u8| decoded(seq![b] + rest, 0).0;
            &&& of(0x68) == seq![Key::Pan((0 - 1) as i32, 0)] + after
            &&& of(0x6a) == seq![Key::Pan(0, 1)] + after
            &&& of(0x6b) == seq![Key::Pan(0, (0 - 1) as i32)] + after
            &&& of(0x6c) == seq![Key::Pan(1, 0)] + after
            &&& of(0x2b) == seq![Key::Zoom(1)] + after
            &&& of(0x3d) == seq![Key::Zoom(1)] + after
            &&& of(0x2d) == seq![Key::Zoom((0 - 1) as i32)] + after
            &&& of(0x5f) == seq![Key::Zoom((0 - 1) as i32)] + after
            &&& of(0x30) == seq![Key::Reset] + after
            &&& of(0x6e) == seq![Key::Hit(1)] + after
            &&& of(0x4e) == seq![Key::Hit((0 - 1) as i32)] + after
            &&& of(0x2f) == seq![Key::Search(1)] + after
            &&& of(0x3f) == seq![Key::Search((0 - 1) as i32)] + after
            &&& of(0x7d) == seq![Key::Heading(1)] + after
            &&& of(0x7b) == seq![Key::Heading((0 - 1) as i32)] + after
            &&& of(0x67) == seq![Key::Top] + after
            &&& of(0x47) == seq![Key::Bottom] + after
            &&& of(0x09) == seq![Key::Next] + after
            &&& of(0x71) == seq![Key::Quit] + after
            &&& of(0x03) == seq![Key::Quit] + after
        }),
{
    lemma_one_key(0x68, rest);
    lemma_one_key(0x6a, rest);
    lemma_one_key(0x6b, rest);
    lemma_one_key(0x6c, rest);
    lemma_one_key(0x2b, rest);
    lemma_one_key(0x3d, rest);
    lemma_one_key(0x2d, rest);
    lemma_one_key(0x5f, rest);
    lemma_one_key(0x30, rest);
    lemma_one_key(0x6e, rest);
    lemma_one_key(0x4e, rest);
    lemma_one_key(0x2f, rest);
    lemma_one_key(0x3f, rest);
    lemma_one_key(0x7d, rest);
    lemma_one_key(0x7b, rest);
    lemma_one_key(0x67, rest);
    lemma_one_key(0x47, rest);
    lemma_one_key(0x09, rest);
    lemma_one_key(0x71, rest);
    lemma_one_key(0x03, rest);
}

/// A byte that no key is for is no key.
pub proof fn law_other_bytes_are_no_keys(b: u8, rest: Seq<u8>)
    requires
        !seq![
            0x68u8,
            0x6a,
            0x6b,
            0x6c,
            0x2b,
            0x3d,
            0x2d,
            0x5f,
            0x30,
            0x6e,
            0x4e,
            0x2f,
            0x3f,
            0x7d,
            0x7b,
            0x67,
            0x47,
            0x09,
            0x71,
            0x03,
            0x1b,
        ].contains(b),
    ensures
        decoded(seq![b] + rest, 0).0 == decoded(rest, 0).0,
{
    let all = seq![
        0x68u8,
        0x6a,
        0x6b,
        0x6c,
        0x2b,
        0x3d,
        0x2d,
        0x5f,
        0x30,
        0x6e,
        0x4e,
        0x2f,
        0x3f,
        0x7d,
        0x7b,
        0x67,
        0x47,
        0x09,
        0x71,
        0x03,
        0x1b,
    ];
    assert forall|i: int| 0 <= i < all.len() implies b != all[i] by {
        assert(all.contains(all[i]));
    }
    assert(b != all[0] && b != all[1] && b != all[2] && b != all[3] && b != all[4] && b != all[5] && b
        != all[6] && b != all[7] && b != all[8] && b != all[9] && b != all[10] && b != all[11] && b
        != all[12] && b != all[13] && b != all[14] && b != all[15] && b != all[16] && b != all[17] && b
        != all[18] && b != all[19] && b != all[20]);
    lemma_one_key(b, rest);
}

/// A control sequence asks for what its last byte says, whatever stands between: the arrows, and
/// shift-tab.
pub proof fn law_arrows_go_where_they_point(between: Seq<u8>, last: u8, rest: Seq<u8>)
    requires
        forall|i: int| 0 <= i < between.len() ==> !(0x40 <= #[trigger] between[i] <= 0x7e),
        0x40 <= last <= 0x7e,
    ensures
        ({
            let keys = decoded(seq![0x1bu8, 0x5b] + between + seq![last] + rest, 0).0;
            let after = decoded(rest, 0).0;
            &&& last == 0x41 ==> keys == seq![Key::Pan(0, (0 - 1) as i32)] + after
            &&& last == 0x42 ==> keys == seq![Key::Pan(0, 1)] + after
            &&& last == 0x43 ==> keys == seq![Key::Pan(1, 0)] + after
            &&& last == 0x44 ==> keys == seq![Key::Pan((0 - 1) as i32, 0)] + after
            &&& last == 0x5a ==> keys == seq![Key::Prev] + after
            &&& !(0x41 <= last <= 0x44 || last == 0x5a) ==> keys == after
        }),
{
    let a = seq![0x1bu8, 0x5b] + between + seq![last];
    let n = 2 + between.len() as int;
    law_a_burst_may_be_split(a, rest);
    assert(a.subrange(0, 2) =~= csi());
    assert(a.subrange(0, 2)[1] == 0x5b);
    assert(!text::occurs_at(a, apc(), 0)) by {
        if text::occurs_at(a, apc(), 0) {
            assert(a.subrange(0, 2)[1] == apc()[1]);
        }
    }
    assert(text::occurs_at(a, csi(), 0));
    assert forall|i: int| 2 <= i < n implies !is_final(#[trigger] a[i]) by {
        assert(a[i] == between[i - 2]);
    }
    assert(a[n] == last);
    lemma_final_at(a, 2, n);
    assert(decoded(a, n + 1) == (Seq::<Key>::empty(), n + 1));
    assert(decoded(a, 0).1 == n + 1);
    assert(a.skip(n + 1) + rest =~= rest);
    if let Some(k) = sequence_key(last) {
        assert(decoded(a, 0).0 =~= seq![k]);
    } else {
        assert(decoded(a, 0).0 + decoded(rest, 0).0 =~= decoded(rest, 0).0);
    }
}

proof fn lemma_final_at(buf: Seq<u8>, i: int, n: int)
    requires
        0 <= i <= n < buf.len(),
        is_final(buf[n]),
        forall|j: int| i <= j < n ==> !is_final(#[trigger] buf[j]),
    ensures
        final_from(buf, i) == Some(n),
    decreases n - i,
{
    if i < n {
        lemma_final_at(buf, i + 1, n);
    }
}

/// What is typed into a search is what is searched for: bytes that are no control go on the end, and
/// return runs what was typed, escape and an interrupt give it up, and a backspace takes a character
/// off. Nothing behind a byte that ends a search is taken.
pub proof fn law_typing_spells_the_query(query: Seq<u8>, t: Seq<u8>, rest: Seq<u8>)
    requires
        forall|i: int| 0 <= i < t.len() ==> 0x20 <= #[trigger] t[i] && t[i] != 0x7f,
    ensures
        typed(query, t, 0) == (query + t, Typed::More, t.len() as int),
        typed(query, t + seq![0x0du8] + rest, 0) == (query + t, Typed::Done, (t.len() + 1) as int),
        typed(query, t + seq![0x0au8] + rest, 0) == (query + t, Typed::Done, (t.len() + 1) as int),
        typed(query, t + seq![0x1bu8] + rest, 0).1 == Typed::Cancelled,
        typed(query, t + seq![0x1bu8] + rest, 0).2 == t.len() + 1,
        typed(query, t + seq![0x03u8] + rest, 0).1 == Typed::Cancelled,
        typed(query, t + seq![0x03u8] + rest, 0).2 == t.len() + 1,
        typed(query, t + seq![0x7fu8], 0) == (erased(query + t), Typed::More, (t.len() + 1) as int),
        typed(query, t + seq![0x08u8], 0) == (erased(query + t), Typed::More, (t.len() + 1) as int),
{
    assert(t + Seq::<u8>::empty() =~= t);
    lemma_typing(query, t, seq![], 0);
    assert(query + t.skip(0) =~= query + t);
    lemma_typing(query, t, seq![0x0du8] + rest, 0);
    lemma_typing(query, t, seq![0x0au8] + rest, 0);
    lemma_typing(query, t, seq![0x1bu8] + rest, 0);
    lemma_typing(query, t, seq![0x03u8] + rest, 0);
    lemma_typing(query, t, seq![0x7fu8], 0);
    lemma_typing(query, t, seq![0x08u8], 0);
    let n = t.len() as int;
    assert(t + seq![0x0du8] + rest =~= t + (seq![0x0du8] + rest));
    assert(t + seq![0x0au8] + rest =~= t + (seq![0x0au8] + rest));
    assert(t + seq![0x1bu8] + rest =~= t + (seq![0x1bu8] + rest));
    assert(t + seq![0x03u8] + rest =~= t + (seq![0x03u8] + rest));
    assert((t + (seq![0x0du8] + rest))[n] == 0x0d);
    assert((t + (seq![0x0au8] + rest))[n] == 0x0a);
    assert((t + (seq![0x1bu8] + rest))[n] == 0x1b);
    assert((t + (seq![0x03u8] + rest))[n] == 0x03);
    assert((t + seq![0x7fu8])[n] == 0x7f);
    assert((t + seq![0x08u8])[n] == 0x08);
    assert(typed(erased(query + t), t + seq![0x7fu8], n + 1) == (
        erased(query + t),
        Typed::More,
        n + 1,
    ));
    assert(typed(erased(query + t), t + seq![0x08u8], n + 1) == (
        erased(query + t),
        Typed::More,
        n + 1,
    ));
}

proof fn lemma_typing(query: Seq<u8>, t: Seq<u8>, rest: Seq<u8>, i: int)
    requires
        0 <= i <= t.len(),
        forall|j: int| 0 <= j < t.len() ==> 0x20 <= #[trigger] t[j] && t[j] != 0x7f,
    ensures
        typed(query, t + rest, i) == typed(query + t.skip(i), t + rest, t.len() as int),
    decreases t.len() - i,
{
    if i < t.len() {
        assert((t + rest)[i] == t[i]);
        lemma_typing(query.push(t[i]), t, rest, i + 1);
        assert(query.push(t[i]) + t.skip(i + 1) =~= query + t.skip(i));
    } else {
        assert(query + t.skip(i) =~= query);
    }
}

/// What the terminal says against a graphics command is heard, and that it took one is not.
pub proof fn law_a_refusal_is_heard(head: Seq<u8>, message: Seq<u8>, rest: Seq<u8>)
    requires
        forall|i: int| 0 <= i < head.len() ==> #[trigger] head[i] != 0x1b && head[i] != 0x3b,
        forall|i: int| 0 <= i < message.len() ==> #[trigger] message[i] != 0x1b,
    ensures
        ({
            let buf = seq![0x1bu8, 0x5f, 0x47] + head + seq![0x3bu8] + message + seq![0x1bu8, 0x5c]
                + rest;
            let said = text::lossy_text(message);
            &&& said.len() > 0 && said != "OK"@ ==> complaint(buf, 0) == Some(said)
            &&& said.len() == 0 || said == "OK"@ ==> complaint(buf, 0) == complaint(
                buf,
                (head.len() + message.len() + 6) as int,
            )
        }),
{
    let buf = seq![0x1bu8, 0x5f, 0x47] + head + seq![0x3bu8] + message + seq![0x1bu8, 0x5c] + rest;
    let semi = 3 + head.len() as int;
    let end = semi + 1 + message.len();
    assert(buf.subrange(0, 3) =~= graphics_answer());
    assert(text::occurs_at(buf, graphics_answer(), 0));
    assert(text::first_from(buf, graphics_answer(), 0) == Some(0int));
    assert(buf.subrange(end, end + 2) =~= terminator());
    assert forall|j: int| 0 <= j < end implies !text::occurs_at(buf, terminator(), j) by {
        if text::occurs_at(buf, terminator(), j) {
            assert(buf.subrange(j, j + 2)[0] == buf[j]);
            assert(buf.subrange(j, j + 2)[1] == buf[j + 1]);
            if 3 <= j < semi {
                assert(buf[j] == head[j - 3]);
            } else if j > semi {
                assert(buf[j] == message[j - semi - 1]);
            }
        }
    }
    lemma_first_at(buf, terminator(), 0, end);
    let front = buf.take(end);
    assert(front.subrange(semi, semi + 1) =~= seq![0x3bu8]);
    assert forall|j: int| 3 <= j < semi implies !text::occurs_at(front, seq![0x3bu8], j) by {
        if text::occurs_at(front, seq![0x3bu8], j) {
            assert(front.subrange(j, j + 1)[0] == front[j]);
            assert(front[j] == head[j - 3]);
        }
    }
    lemma_first_at(front, seq![0x3bu8], 3, semi);
    assert(buf.subrange(semi + 1, end) =~= message);
}

proof fn lemma_first_at(buf: Seq<u8>, needle: Seq<u8>, i: int, n: int)
    requires
        0 <= i <= n,
        n + needle.len() <= buf.len(),
        needle.len() > 0,
        text::occurs_at(buf, needle, n),
        forall|j: int| i <= j < n ==> !text::occurs_at(buf, needle, j),
    ensures
        text::first_from(buf, needle, i) == Some(n),
    decreases n - i,
{
    if i < n {
        lemma_first_at(buf, needle, i + 1, n);
    }
}

/// A burst's keys are those that are whole, and an escape that is left alone at its end asks to quit.
pub proof fn law_a_lone_escape_quits(buf: Seq<u8>)
    ensures
        decoded(buf, 0).1 == buf.len() ==> keys_of(buf) == decoded(buf, 0).0,
        keys_of(seq![0x1b]) == seq![Key::Quit],
        decoded(buf, 0).1 == buf.len() ==> keys_of(buf + seq![0x1b]) == decoded(buf, 0).0.push(
            Key::Quit,
        ),
{
    let esc = seq![0x1bu8];
    assert(!text::occurs_at(esc, apc(), 0));
    assert(!text::occurs_at(esc, csi(), 0));
    assert(decoded(esc, 0) == (Seq::<Key>::empty(), 0int));
    assert(keys_of(esc) =~= seq![Key::Quit]);
    if decoded(buf, 0).1 == buf.len() {
        law_a_burst_may_be_split(buf, esc);
        assert(buf.skip(buf.len() as int) + esc =~= esc);
        assert(decoded(buf, 0).0 + Seq::<Key>::empty() =~= decoded(buf, 0).0);
        assert((buf + esc)[buf.len() as int] == 0x1b);
    }
}

} // verus!
