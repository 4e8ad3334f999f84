//! The line editor of the serial and TCP consoles: bytes arrive one at a time, are echoed,
//! can be erased, and a line end hands the typed line to the command interpreter.

use vstd::prelude::*;
use vstd::utf8::{decode_utf8, valid_utf8};
use crate::text::decode_chars;
use crate::text::string_of;

verus! {

broadcast use vstd::seq::group_seq_axioms;

/// Capacity of the line buffer, in bytes.
pub const LINE_CAP: usize = 64;

/// Carriage return or line feed.
pub open spec fn is_line_end(c: u8) -> bool {
    c == 13 || c == 10
}

/// Backspace or delete.
pub open spec fn is_erase(c: u8) -> bool {
    c == 8 || c == 127
}

/// The line after byte `c` arrives: a line end clears it, an erase drops the last byte (if
/// any), any other byte is appended while there is room and dropped otherwise.
pub open spec fn next_line(buf: Seq<u8>, c: u8) -> Seq<u8> {
    if is_line_end(c) {
        Seq::empty()
    } else if is_erase(c) {
        if buf.len() > 0 {
            buf.drop_last()
        } else {
            buf
        }
    } else if buf.len() < LINE_CAP {
        buf.push(c)
    } else {
        buf
    }
}

/// The line after a whole input has arrived, byte by byte.
pub open spec fn typed(buf: Seq<u8>, input: Seq<u8>) -> Seq<u8>
    decreases input.len(),
{
    if input.len() == 0 {
        buf
    } else {
        next_line(typed(buf, input.drop_last()), input.last())
    }
}

/// What the console does for one byte.
pub enum EditEvent {
    /// A line end: write a line break, run the line if there is one (it was non-empty and
    /// valid UTF-8), then write the prompt.
    Submit(Option<String>),
    /// An erase of the last byte: write backspace, space, backspace.
    Erase,
    /// A byte taken into the line: echo it.
    Echo(u8),
    /// Nothing happens.
    Ignore,
}

/// The bytes typed so far on the current line.
pub struct LineEditor {
    buf: Vec<u8>,
}

impl View for LineEditor {
    type V = Seq<u8>;

    closed spec fn view(&self) -> Seq<u8> {
        self.buf@
    }
}

impl LineEditor {
    /// The line never exceeds its capacity.
    pub closed spec fn wf(&self) -> bool {
        self.buf@.len() <= LINE_CAP
    }

    /// An empty line.
    pub fn new() -> (r: Self)
        ensures
            r.wf(),
            r@ == Seq::<u8>::empty(),
    {
        LineEditor { buf: Vec::new() }
    }

    /// Takes one byte.
    pub fn feed(&mut self, c: u8) -> (ev: EditEvent)
        requires
            old(self).wf(),
        ensures
            final(self).wf(),
            final(self)@ == next_line(old(self)@, c),
            final(self)@.len() <= LINE_CAP,
            is_line_end(c) ==> (ev matches EditEvent::Submit(line) && (line is Some <==> (
            old(self)@.len() > 0 && valid_utf8(old(self)@))) && (line matches Some(s) ==> s@
                == decode_utf8(old(self)@))),
            is_erase(c) ==> if old(self)@.len() > 0 {
                ev is Erase
            } else {
                ev is Ignore
            },
            !is_line_end(c) && !is_erase(c) ==> if old(self)@.len() < LINE_CAP {
                ev == EditEvent::Echo(c)
            } else {
                ev is Ignore
            },
    {
        if c == 13 || c == 10 {
            let line = if self.buf.len() > 0 {
                match decode_chars(self.buf.as_slice()) {
                    Some(v) => Some(string_of(v.as_slice())),
                    None => None,
                }
            } else {
                None
            };
            self.buf = Vec::new();
            EditEvent::Submit(line)
        } else if c == 8 || c == 127 {
            if self.buf.len() > 0 {
                self.buf.pop();
                EditEvent::Erase
            } else {
                EditEvent::Ignore
            }
        } else if self.buf.len() < LINE_CAP {
            self.buf.push(c);
            EditEvent::Echo(c)
        } else {
            EditEvent::Ignore
        }
    }
}

/// Typing a byte and erasing it leaves the line as it was, when the line had room for it.
pub proof fn lemma_type_then_erase(buf: Seq<u8>, c: u8, e: u8)
    requires
        buf.len() < LINE_CAP,
        !is_line_end(c),
        !is_erase(c),
        is_erase(e),
    ensures
        next_line(next_line(buf, c), e) == buf,
{
    assert(buf.push(c).drop_last() =~= buf);
}

/// A line never grows past its capacity, whatever arrives.
pub proof fn lemma_line_bounded(buf: Seq<u8>, input: Seq<u8>)
    requires
        buf.len() <= LINE_CAP,
    ensures
        typed(buf, input).len() <= LINE_CAP,
    decreases input.len(),
{
    if input.len() > 0 {
        lemma_line_bounded(buf, input.drop_last());
    }
}

/// Typing up to 64 ordinary bytes on an empty line yields exactly those bytes, which a line
/// end then submits.
pub proof fn lemma_typed_line(input: Seq<u8>)
    requires
        input.len() <= LINE_CAP,
        forall|i: int| 0 <= i < input.len() ==> !is_line_end(#[trigger] input[i]) && !is_erase(
            input[i],
        ),
    ensures
        typed(Seq::empty(), input) == input,
    decreases input.len(),
{
    if input.len() > 0 {
        let init = input.drop_last();
        assert forall|i: int| 0 <= i < init.len() implies !is_line_end(#[trigger] init[i])
            && !is_erase(init[i]) by {
            assert(init[i] == input[i]);
        }
        lemma_typed_line(init);
        assert(init.push(input.last()) =~= input);
    }
}

/// A line end always clears the line.
pub proof fn lemma_line_end_clears(buf: Seq<u8>, input: Seq<u8>, c: u8)
    requires
        is_line_end(c),
    ensures
        typed(buf, input.push(c)) == Seq::<u8>::empty(),
{
    assert(input.push(c).drop_last() =~= input);
}

} // verus!
