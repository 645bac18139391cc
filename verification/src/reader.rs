//! The cursor layer: a positional, read-only view over a text buffer that
//! supports speculative reads with an explicit commit / discard decision.
//!
//! A [`Reader`] never mutates the buffer it looks at; advancing is done by
//! producing a new `Reader` value.  A grammar rule probes the input through
//! [`Reader::read_amt`], which hands back the characters together with a
//! [`CommitHandle`].  Resolving the handle by [`CommitHandle::commit`] yields
//! a [`Branch`] (an advanced cursor); resolving it by
//! [`CommitHandle::discard`] yields the original, unadvanced cursor.  Because
//! the handle is consumed by either resolution, committing twice or
//! discarding after a commit is impossible by construction rather than a
//! run-time error.
//!
//! The orchestrating parse loop uses [`Reader::checkout`] to obtain a
//! [`Pending`] handle plus a view of the same state: the view is handed to a
//! rule, and the loop then either merges the rule's resulting branch into the
//! live cursor or discards it and retries with another rule.

use crate::Error;
use vstd::prelude::*;

verus! {

/// A position into an immutable text buffer.
///
/// Copying a `Reader` is how speculative branches are made: every copy looks
/// at the same buffer, and a branch that is abandoned simply drops its copy,
/// leaving the original position untouched.
#[derive(Clone, Copy)]
pub struct Reader<'a> {
    buf: &'a Vec<char>,
    pos: usize,
}

/// The handle returned by [`Reader::checkout`]; it remembers the state the
/// checkout was made from so that the caller can later adopt a rule's branch
/// or fall back to the remembered state.
pub struct Pending<'a> {
    reader: Reader<'a>,
}

/// An advanced cursor state produced by successfully consuming input.
pub struct Branch<'a> {
    reader: Reader<'a>,
}

/// The pending-commit handle of a speculative read: exactly one of
/// [`CommitHandle::commit`] or [`CommitHandle::discard`] consumes it.
pub struct CommitHandle<'a> {
    reader: Reader<'a>,
    amt: usize,
}

impl<'a> Reader<'a> {
    /// The whole text the cursor looks at.
    pub closed spec fn text(self) -> Seq<char> {
        self.buf@
    }

    /// The current position, as a mathematical integer.
    pub closed spec fn position(self) -> int {
        self.pos as int
    }

    /// A cursor is well formed when its position lies inside the buffer.
    pub open spec fn wf(self) -> bool {
        0 <= self.position() <= self.text().len()
    }

    /// Start a cursor at the beginning of `buf`.
    pub fn from(buf: &'a Vec<char>) -> (r: Reader<'a>)
        ensures
            r.text() == buf@,
            r.position() == 0,
            r.wf(),
    {
        Reader { buf, pos: 0 }
    }

    /// The current position, for rule inspection.
    pub fn pos_exec(&self) -> (n: usize)
        ensures
            n == self.position(),
    {
        self.pos
    }

    /// The length of the whole text.
    pub fn len_exec(&self) -> (n: usize)
        ensures
            n == self.text().len(),
    {
        self.buf.len()
    }

    /// Produce a pending handle remembering this state, together with a view
    /// of the same state for a rule to inspect.
    pub fn checkout(self) -> (r: (Pending<'a>, Reader<'a>))
        ensures
            r.0.saved().text() == self.text(),
            r.0.saved().position() == self.position(),
            r.1.text() == self.text(),
            r.1.position() == self.position(),
    {
        (Pending { reader: self }, self)
    }

    /// A zero-width branch: input recognised without consuming anything.
    pub fn branch_here(self) -> (b: Branch<'a>)
        ensures
            b.state().text() == self.text(),
            b.state().position() == self.position(),
    {
        Branch { reader: self }
    }

    /// Attempt to read exactly `amt` characters at the current position
    /// without committing.  On success the characters come back together with
    /// a pending-commit handle; if fewer than `amt` characters remain, the
    /// definitive insufficient-input signal `Error::Eof` comes back and the
    /// cursor is unaffected.
    pub fn read_amt(self, amt: usize) -> (r: Result<(Vec<char>, CommitHandle<'a>), Error>)
        requires
            amt >= 1,
            self.wf(),
        ensures
            r is Ok <==> self.position() + amt <= self.text().len(),
            r matches Ok(ok) ==> {
                &&& ok.0@ == self.text().subrange(self.position(), self.position() + amt)
                &&& ok.1.start().text() == self.text()
                &&& ok.1.start().position() == self.position()
                &&& ok.1.amount() == amt
                &&& ok.1.wf()
            },
            r matches Err(e) ==> e == Error::Eof,
    {
        if amt <= self.buf.len() && self.pos <= self.buf.len() - amt {
            let mut out: Vec<char> = Vec::new();
            let mut i: usize = 0;
            while i < amt
                invariant
                    i <= amt,
                    self.pos + amt <= self.buf.len(),
                    out@ == self.buf@.subrange(self.pos as int, self.pos + i),
                decreases amt - i,
            {
                out.push(self.buf[self.pos + i]);
                proof {
                    assert(out@ =~= self.buf@.subrange(self.pos as int, self.pos + i + 1));
                }
                i = i + 1;
            }
            Ok((out, CommitHandle { reader: self, amt }))
        } else {
            Err(Error::Eof)
        }
    }
}

impl<'a> Pending<'a> {
    /// The state remembered at checkout time.
    pub closed spec fn saved(self) -> Reader<'a> {
        self.reader
    }

    /// Adopt a rule's branch: the live cursor becomes the advanced state.
    pub fn merge(self, b: Branch<'a>) -> (r: Reader<'a>)
        ensures
            r.text() == b.state().text(),
            r.position() == b.state().position(),
    {
        b.reader
    }

    /// Reject the attempt: the cursor that comes back is byte for byte the
    /// state remembered at checkout time.
    pub fn discard(self) -> (r: Reader<'a>)
        ensures
            r.text() == self.saved().text(),
            r.position() == self.saved().position(),
    {
        self.reader
    }
}

impl<'a> Branch<'a> {
    /// The advanced cursor state this branch stands for.
    pub closed spec fn state(self) -> Reader<'a> {
        self.reader
    }

    /// Unwrap the branch into a plain cursor, for rules that keep consuming.
    pub fn into_cursor(self) -> (r: Reader<'a>)
        ensures
            r.text() == self.state().text(),
            r.position() == self.state().position(),
    {
        self.reader
    }
}

impl<'a> CommitHandle<'a> {
    /// The state the speculative read started from.
    pub closed spec fn start(self) -> Reader<'a> {
        self.reader
    }

    /// How many characters the speculative read consumed.
    pub closed spec fn amount(self) -> int {
        self.amt as int
    }

    /// A handle is well formed when the read it stands for fits the buffer.
    pub open spec fn wf(self) -> bool {
        &&& self.start().wf()
        &&& self.start().position() + self.amount() <= self.start().text().len()
    }

    /// Accept the read: the branch that comes back is advanced past the
    /// consumed characters.
    pub fn commit(self) -> (b: Branch<'a>)
        requires
            self.wf(),
        ensures
            b.state().text() == self.start().text(),
            b.state().position() == self.start().position() + self.amount(),
            b.state().wf(),
    {
        let len = self.reader.buf.len();
        proof {
            assert(self.reader.pos + self.amt <= len);
        }
        Branch { reader: Reader { buf: self.reader.buf, pos: self.reader.pos + self.amt } }
    }

    /// Reject the read: the cursor that comes back is the original,
    /// unadvanced state.
    pub fn discard(self) -> (r: Reader<'a>)
        ensures
            r.text() == self.start().text(),
            r.position() == self.start().position(),
    {
        self.reader
    }
}

} // verus!
