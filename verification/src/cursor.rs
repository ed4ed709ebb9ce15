//! The read and seek state behind one open `pstr://` URL.
//!
//! Everything that the player's stream callbacks actually *do* (advance a
//! position, refuse a seek, turn a short read into an end of file, honour a
//! cancellation) is decided here. What carries a read out is the caller's.

use vstd::prelude::*;

verus! {

/// What a read callback returns on failure.
pub const READ_ERROR: i64 = -1;

/// What a seek callback returns on failure: mpv's generic error.
pub const SEEK_ERROR: i64 = -20;

/// What a size callback returns when there is no size to give: mpv's
/// "unsupported".
pub const SIZE_UNKNOWN: i64 = -18;

/// A position inside one stream.
#[derive(Debug, Clone, Copy, PartialEq, Eq, Structural)]
pub struct StreamCursor {
    size: u64,
    pos: u64,
}

/// What a read asks for.
#[derive(Debug, Clone, Copy, PartialEq, Eq, Structural)]
pub enum ReadStep {
    /// Return this at once.
    Return(i64),
    /// Read from this offset.
    ReadAt(u64),
}

/// How a read ended.
#[derive(Debug, Clone, Copy, PartialEq, Eq, Structural)]
pub enum ReadOutcome {
    /// It was cancelled, or something below it gave way.
    Abandoned,
    /// It failed.
    Failed,
    /// It read this many bytes.
    Read(usize),
}

impl StreamCursor {
    pub closed spec fn total(&self) -> u64 {
        self.size
    }

    pub closed spec fn at(&self) -> u64 {
        self.pos
    }

    pub fn new(size: u64) -> (r: Self)
        ensures
            r.total() == size,
            r.at() == 0,
    {
        StreamCursor { size, pos: 0 }
    }

    /// Total size, or [`SIZE_UNKNOWN`] if it does not fit the player's counting.
    pub fn size(&self) -> (r: i64)
        ensures
            r == if self.total() <= i64::MAX {
                self.total() as int
            } else {
                SIZE_UNKNOWN as int
            },
    {
        if self.size <= i64::MAX as u64 {
            self.size as i64
        } else {
            SIZE_UNKNOWN
        }
    }

    /// Where the next read starts.
    pub fn position(&self) -> (r: u64)
        ensures
            r == self.at(),
    {
        self.pos
    }

    /// Move to an absolute offset, returning the new one.
    ///
    /// Seeking exactly to the end is allowed, and reads there return 0. Past it is
    /// an error rather than a clamp, so a mistake upstream shows up as a failure
    /// instead of as bytes from the wrong place.
    pub fn seek(&mut self, offset: i64) -> (r: i64)
        ensures
            final(self).total() == old(self).total(),
            if 0 <= offset && offset <= old(self).total() {
                r == offset && final(self).at() == offset
            } else {
                r == SEEK_ERROR && final(self).at() == old(self).at()
            },
            old(self).at() <= old(self).total() ==> final(self).at() <= final(self).total(),
    {
        if offset < 0 || offset as u64 > self.size {
            return SEEK_ERROR;
        }
        self.pos = offset as u64;
        offset
    }

    /// Start a read into a buffer of `len` bytes.
    pub fn begin_read(&self, len: usize, cancelled: bool) -> (r: ReadStep)
        ensures
            r == if cancelled {
                ReadStep::Return(READ_ERROR)
            } else if len == 0 || self.at() >= self.total() {
                ReadStep::Return(0)
            } else {
                ReadStep::ReadAt(self.at())
            },
    {
        if cancelled {
            return ReadStep::Return(READ_ERROR);
        }
        if len == 0 || self.pos >= self.size {
            return ReadStep::Return(0);
        }
        ReadStep::ReadAt(self.pos)
    }

    /// End a read: the byte count, or [`READ_ERROR`]. A read is allowed to come up
    /// short; the player treats that as "call again". Only what was read moves the
    /// position.
    pub fn end_read(&mut self, outcome: ReadOutcome) -> (r: i64)
        requires
            outcome matches ReadOutcome::Read(n) ==> n <= i64::MAX && old(self).at() + n
                <= u64::MAX,
        ensures
            final(self).total() == old(self).total(),
            match outcome {
                ReadOutcome::Read(n) => r == n && final(self).at() == old(self).at() + n,
                _ => r == READ_ERROR && final(self).at() == old(self).at(),
            },
    {
        match outcome {
            ReadOutcome::Read(read) => {
                self.pos = self.pos + read as u64;
                read as i64
            },
            _ => READ_ERROR,
        }
    }
}

} // verus!
