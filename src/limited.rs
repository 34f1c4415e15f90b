use vstd::prelude::*;
use crate::error::WPPkgFsError;
use crate::stream::{available, FsBinaryStream};

verus! {

/// The outcome of asking for up to `max` bytes at `pos` of a window ending
/// at `end` over the bytes `d`: the bytes handed out, or the error.
pub open spec fn window_read(d: Seq<u8>, pos: int, end: int, max: int) -> Result<Seq<u8>, WPPkgFsError> {
    let n = if max < end - pos { max } else { end - pos };
    if max > 0 && pos == end {
        Err(WPPkgFsError::EndOfWindow)
    } else if !available(d, pos, n) {
        Err(WPPkgFsError::UnexpectedEof)
    } else {
        Ok(d.subrange(pos, pos + n))
    }
}

/// A reader confined to the byte range `[start, end)` of its own copy of a
/// container: it never hands out bytes outside that range.
pub struct LimitedBinaryStream {
    inner: FsBinaryStream,
    start: u64,
    end: u64,
}

impl LimitedBinaryStream {
    /// The bytes of the backing container.
    pub closed spec fn content(&self) -> Seq<u8> {
        self.inner.content()
    }

    /// The first absolute offset of the window.
    pub closed spec fn window_start(&self) -> u64 {
        self.start
    }

    /// The absolute offset just past the window.
    pub closed spec fn window_end(&self) -> u64 {
        self.end
    }

    /// The absolute offset of the next read.
    pub closed spec fn pos(&self) -> u64 {
        self.inner.pos()
    }

    /// The position lies inside the window.
    pub open spec fn wf(&self) -> bool {
        self.window_start() <= self.pos() <= self.window_end()
    }

    /// The reader is the same but for its position, now `p`.
    pub open spec fn moved_to(&self, before: &Self, p: int) -> bool {
        &&& self.content() == before.content()
        &&& self.window_start() == before.window_start()
        &&& self.window_end() == before.window_end()
        &&& self.pos() as int == p
    }

    /// A reader over `[offset, offset + length)` of `pkg`'s bytes, positioned
    /// at the start of the window.
    pub fn new(pkg: FsBinaryStream, offset: u64, length: u64) -> (r: Self)
        requires
            offset + length <= u64::MAX,
        ensures
            r.wf(),
            r.content() == pkg.content(),
            r.window_start() == offset,
            r.window_end() == offset + length,
            r.pos() == offset,
    {
        let mut inner = pkg;
        inner.set_position(offset);
        LimitedBinaryStream { inner, start: offset, end: offset + length }
    }

    pub fn position(&self) -> (r: u64)
        ensures
            r == self.pos(),
    {
        self.inner.get_position()
    }

    /// The number of bytes left in the window.
    pub fn remaining(&self) -> (r: u64)
        requires
            self.wf(),
        ensures
            r == self.window_end() - self.pos(),
    {
        self.end - self.inner.get_position()
    }

    /// Moves back to the start of the window.
    pub fn reset(&mut self)
        requires
            old(self).wf(),
        ensures
            final(self).wf(),
            final(self).moved_to(old(self), old(self).window_start() as int),
    {
        self.inner.set_position(self.start);
    }

    /// Moves to the absolute offset `pos`, which must lie within the window
    /// (its end included).
    pub fn seek(&mut self, pos: u64) -> (r: Result<(), WPPkgFsError>)
        requires
            old(self).wf(),
        ensures
            final(self).wf(),
            r is Ok <==> old(self).window_start() <= pos <= old(self).window_end(),
            r is Ok ==> final(self).moved_to(old(self), pos as int),
            r matches Err(e) ==> e == WPPkgFsError::OutOfRange
                && final(self).moved_to(old(self), old(self).pos() as int),
    {
        if pos < self.start || pos > self.end {
            Err(WPPkgFsError::OutOfRange)
        } else {
            self.inner.set_position(pos);
            Ok(())
        }
    }

    /// Hands out the next `min(max, remaining)` bytes of the window. Asking
    /// for bytes when none remain fails; so does a window that runs past the
    /// end of the backing bytes. On failure the position is kept.
    pub fn read(&mut self, max: usize) -> (r: Result<Vec<u8>, WPPkgFsError>)
        requires
            old(self).wf(),
        ensures
            final(self).wf(),
            r matches Ok(b) ==> window_read(old(self).content(), old(self).pos() as int,
                old(self).window_end() as int, max as int) == Ok::<Seq<u8>, WPPkgFsError>(b@)
                && final(self).moved_to(old(self), old(self).pos() + b@.len()),
            r matches Err(e) ==> window_read(old(self).content(), old(self).pos() as int,
                old(self).window_end() as int, max as int) == Err::<Seq<u8>, WPPkgFsError>(e)
                && final(self).moved_to(old(self), old(self).pos() as int),
    {
        let pos = self.inner.get_position();
        let left: u64 = self.end - pos;
        if max > 0 && left == 0 {
            return Err(WPPkgFsError::EndOfWindow);
        }
        let n: usize = if (max as u64) < left {
            max
        } else {
            left as usize
        };
        let mut buf: Vec<u8> = Vec::new();
        let mut i: usize = 0;
        while i < n
            invariant
                i <= n,
                buf@.len() == i,
            decreases n - i,
        {
            buf.push(0);
            i = i + 1;
        }
        match self.inner.read(&mut buf) {
            Ok(()) => Ok(buf),
            Err(e) => Err(e),
        }
    }
}

} // verus!
