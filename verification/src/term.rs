//! Colours on the terminal.
use vstd::prelude::*;
use crate::error::ToolError;
use crate::text::push_str;

verus! {

#[derive(Clone, Copy, Debug, PartialEq, Eq)]
pub enum Color {
    Red,
    Green,
    Yellow,
    Cyan,
}

/// The escape sequence that starts colour `c`.
pub open spec fn color_start(c: Color) -> Seq<char> {
    match c {
        Color::Red => "\x1b[0;31m"@,
        Color::Green => "\x1b[0;32m"@,
        Color::Yellow => "\x1b[1;33m"@,
        Color::Cyan => "\x1b[0;36m"@,
    }
}

pub open spec fn color_end() -> Seq<char> {
    "\x1b[0m"@
}

/// `s` in colour `c` when colours are on, else `s` itself.
pub open spec fn painted(c: Color, s: Seq<char>, enabled: bool) -> Seq<char> {
    if enabled {
        color_start(c) + s + color_end()
    } else {
        s
    }
}

fn start_of(c: Color) -> (r: &'static str)
    ensures
        r@ == color_start(c),
{
    match c {
        Color::Red => "\x1b[0;31m",
        Color::Green => "\x1b[0;32m",
        Color::Yellow => "\x1b[1;33m",
        Color::Cyan => "\x1b[0;36m",
    }
}

/// `s` in colour `c`; `enabled` says whether the terminal shows colours.
pub fn paint(c: Color, s: &str, enabled: bool) -> (r: String)
    ensures
        r@ == painted(c, s@, enabled),
{
    if !enabled {
        return s.to_owned();
    }
    let mut r = start_of(c).to_owned();
    push_str(&mut r, s);
    push_str(&mut r, "\x1b[0m");
    r
}

/// `b` begins with `a`.
pub open spec fn grows(a: Seq<char>, b: Seq<char>) -> bool {
    a.len() <= b.len() && b.take(a.len() as int) == a
}

/// What begins a text still begins it once more is written.
pub(crate) proof fn lemma_grows_append(a: Seq<char>, w: Seq<char>, t: Seq<char>)
    requires
        grows(a, w),
    ensures
        grows(a, w + t),
{
    assert((w + t).take(a.len() as int) =~= w.take(a.len() as int));
}

/// Where text for the user goes.
pub trait Sink {
    /// Whether writing to this sink never fails. Nothing is known of a sink
    /// by default; a sink that never fails says so.
    open spec fn infallible(&self) -> bool {
        false
    }

    /// Whether this sink shows colours.
    fn colors(&self) -> bool;

    /// Writes `text` after what was written.
    fn put(&mut self, text: &str) -> (r: Result<(), ToolError>)
        ensures
            old(self).infallible() ==> r is Ok && final(self).infallible(),
    ;

    /// Pushes the text out.
    fn flush(&mut self) -> (r: Result<(), ToolError>)
        ensures
            old(self).infallible() ==> r is Ok && final(self).infallible(),
    ;
}

/// Text collected in memory; no colours; never fails.
impl Sink for String {
    open spec fn infallible(&self) -> bool {
        true
    }

    fn colors(&self) -> (b: bool)
        ensures
            !b,
    {
        false
    }

    fn put(&mut self, text: &str) -> (r: Result<(), ToolError>)
        ensures
            r is Ok,
            final(self)@ == old(self)@ + text@,
    {
        push_str(self, text);
        Ok(())
    }

    fn flush(&mut self) -> (r: Result<(), ToolError>)
        ensures
            r is Ok,
            final(self)@ == old(self)@,
    {
        Ok(())
    }
}

/// A sink together with the record of what was written to it and of how
/// many writes failed.
pub struct Shown<S: Sink> {
    pub sink: S,
    text: Ghost<Seq<char>>,
    fails: Ghost<nat>,
}

impl<S: Sink> Shown<S> {
    /// The text written so far (the writes that succeeded, in order).
    pub closed spec fn written(&self) -> Seq<char> {
        self.text@
    }

    /// How many writes failed so far.
    pub closed spec fn failures(&self) -> nat {
        self.fails@
    }

    /// Whether the sink never fails.
    pub closed spec fn infallible(&self) -> bool {
        self.sink.infallible()
    }

    /// `sink` with nothing written yet.
    pub fn new(sink: S) -> (r: Shown<S>)
        ensures
            r.written() == Seq::<char>::empty(),
            r.failures() == 0,
            r.infallible() == sink.infallible(),
    {
        Shown { sink, text: Ghost(Seq::empty()), fails: Ghost(0) }
    }

    /// Whether the sink shows colours.
    pub fn colors(&self) -> bool {
        self.sink.colors()
    }

    /// Writes `text`: recorded when it succeeds, counted as a failure when
    /// it does not.
    pub fn put(&mut self, text: &str) -> (r: Result<(), ToolError>)
        ensures
            r is Ok ==> final(self).written() == old(self).written() + text@ && final(self).failures() == old(self).failures(),
            r is Err ==> final(self).written() == old(self).written() && final(self).failures() == old(self).failures() + 1,
            old(self).infallible() ==> r is Ok && final(self).infallible(),
    {
        let r = self.sink.put(text);
        proof {
            if r is Ok {
                self.text@ = self.text@ + text@;
            } else {
                self.fails@ = self.fails@ + 1;
            }
        }
        r
    }

    /// Pushes the text out; a failure is counted.
    pub fn flush(&mut self) -> (r: Result<(), ToolError>)
        ensures
            final(self).written() == old(self).written(),
            r is Ok ==> final(self).failures() == old(self).failures(),
            r is Err ==> final(self).failures() == old(self).failures() + 1,
            old(self).infallible() ==> r is Ok && final(self).infallible(),
    {
        let r = self.sink.flush();
        proof {
            if r is Err {
                self.fails@ = self.fails@ + 1;
            }
        }
        r
    }
}

} // verus!
