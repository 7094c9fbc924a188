//! Bounded, position-tracked cursors over buffers. Every bounds check of the
//! codec flows through these types: an exhausted cursor reports failure
//! instead of panicking, so the caller can raise the right error kind.
use vstd::prelude::*;

verus! {

/// A read cursor over a borrowed slice: a window of elements and a position
/// that only moves forward.
pub struct BufIter<'a, T> {
    buf: &'a [T],
    idx: usize,
}

impl<'a, T: Copy> BufIter<'a, T> {
    /// The elements the cursor ranges over.
    pub closed spec fn seq(self) -> Seq<T> {
        self.buf@
    }

    /// The current position, counted from the front of the window.
    pub closed spec fn pos(self) -> int {
        self.idx as int
    }

    /// The cursor's position never passes the end of its window.
    pub open spec fn wf(self) -> bool {
        0 <= self.pos() && self.pos() <= self.seq().len()
    }

    /// The elements not yet consumed.
    pub open spec fn remaining(self) -> Seq<T> {
        self.seq().skip(self.pos())
    }

    /// A cursor over the whole of `buf`, positioned at its front.
    pub fn new(buf: &'a [T]) -> (it: BufIter<'a, T>)
        ensures
            it.wf(),
            it.seq() == buf@,
            it.pos() == 0,
    {
        BufIter { buf, idx: 0 }
    }

    /// A cursor over the elements of `buf` from `start` (inclusive) to `end`
    /// (exclusive), or `None` if that range leaves the slice.
    pub fn from(buf: &'a [T], start: usize, end: usize) -> (r: Option<BufIter<'a, T>>)
        ensures
            match r {
                Some(it) => {
                    &&& start <= end <= buf@.len()
                    &&& it.wf()
                    &&& it.seq() == buf@.subrange(start as int, end as int)
                    &&& it.pos() == 0
                },
                None => !(start <= end <= buf@.len()),
            },
    {
        if start <= end && end <= buf.len() {
            Some(BufIter { buf: vstd::slice::slice_subrange(buf, start, end), idx: 0 })
        } else {
            None
        }
    }

    /// Number of elements in the cursor's window.
    pub fn len(&self) -> (n: usize)
        ensures
            n == self.seq().len(),
    {
        self.buf.len()
    }

    /// The current position.
    pub fn idx(&self) -> (n: usize)
        ensures
            n == self.pos(),
    {
        self.idx
    }

    /// The next `step` elements without advancing, or `None` if fewer remain.
    pub fn look_forward(&self, step: usize) -> (r: Option<&'a [T]>)
        requires
            self.wf(),
        ensures
            match r {
                Some(s) => {
                    &&& self.pos() + step <= self.seq().len()
                    &&& s@ == self.seq().subrange(self.pos(), self.pos() + step)
                },
                None => self.pos() + step > self.seq().len(),
            },
    {
        if step <= self.buf.len() - self.idx {
            Some(vstd::slice::slice_subrange(self.buf, self.idx, self.idx + step))
        } else {
            None
        }
    }

    /// The next `step` elements, advancing past them, or `None` (without
    /// moving) if fewer remain.
    pub fn step_forward(&mut self, step: usize) -> (r: Option<&'a [T]>)
        requires
            old(self).wf(),
        ensures
            final(self).wf(),
            final(self).seq() == old(self).seq(),
            match r {
                Some(s) => {
                    &&& old(self).pos() + step <= old(self).seq().len()
                    &&& s@ == old(self).seq().subrange(old(self).pos(), old(self).pos() + step)
                    &&& final(self).pos() == old(self).pos() + step
                },
                None => {
                    &&& old(self).pos() + step > old(self).seq().len()
                    &&& final(self).pos() == old(self).pos()
                },
            },
    {
        if step <= self.buf.len() - self.idx {
            let s = vstd::slice::slice_subrange(self.buf, self.idx, self.idx + step);
            self.idx = self.idx + step;
            Some(s)
        } else {
            None
        }
    }

    /// The next element, advancing past it, or `None` (without moving) if the
    /// window is exhausted.
    pub fn step_one(&mut self) -> (r: Option<T>)
        requires
            old(self).wf(),
        ensures
            final(self).wf(),
            final(self).seq() == old(self).seq(),
            match r {
                Some(v) => {
                    &&& old(self).pos() < old(self).seq().len()
                    &&& v == old(self).seq()[old(self).pos()]
                    &&& final(self).pos() == old(self).pos() + 1
                },
                None => {
                    &&& old(self).pos() == old(self).seq().len()
                    &&& final(self).pos() == old(self).pos()
                },
            },
    {
        if self.idx < self.buf.len() {
            let v = *vstd::slice::slice_index_get(self.buf, self.idx);
            self.idx = self.idx + 1;
            Some(v)
        } else {
            None
        }
    }
}

/// A write cursor over an owned buffer: a bounded window of slots filled
/// front to back. It takes the buffer over while writing and hands it back
/// through `into_vec`, so the slots past the window survive unchanged.
pub struct MutBufIter<T> {
    buf: Vec<T>,
    idx: usize,
    end: usize,
}

impl<T: Copy> MutBufIter<T> {
    /// The whole underlying buffer, windowed slots and slots beyond alike.
    pub closed spec fn seq(self) -> Seq<T> {
        self.buf@
    }

    /// The next slot to be written, counted from the front of the buffer.
    pub closed spec fn pos(self) -> int {
        self.idx as int
    }

    /// The end of the writable window.
    pub closed spec fn window_end(self) -> int {
        self.end as int
    }

    /// The position never passes the window, which never passes the buffer.
    pub open spec fn wf(self) -> bool {
        0 <= self.pos() && self.pos() <= self.window_end() && self.window_end()
            <= self.seq().len()
    }

    /// A write cursor whose window is the whole of `buf`.
    pub fn new(buf: Vec<T>) -> (it: MutBufIter<T>)
        ensures
            it.wf(),
            it.seq() == buf@,
            it.pos() == 0,
            it.window_end() == buf@.len(),
    {
        let end = buf.len();
        MutBufIter { buf, idx: 0, end }
    }

    /// A write cursor over the first `end` slots of `buf`.
    pub fn from(buf: Vec<T>, end: usize) -> (it: MutBufIter<T>)
        requires
            end <= buf@.len(),
        ensures
            it.wf(),
            it.seq() == buf@,
            it.pos() == 0,
            it.window_end() == end,
    {
        MutBufIter { buf, idx: 0, end }
    }

    /// Number of slots in the window.
    pub fn len(&self) -> (n: usize)
        ensures
            n == self.window_end(),
    {
        self.end
    }

    /// The current position.
    pub fn idx(&self) -> (n: usize)
        ensures
            n == self.pos(),
    {
        self.idx
    }

    /// Write one element at the position and advance. Reports `false`, and
    /// leaves the cursor as it was, if the window is full.
    pub fn set_next_one(&mut self, value: T) -> (ok: bool)
        requires
            old(self).wf(),
        ensures
            final(self).wf(),
            final(self).window_end() == old(self).window_end(),
            final(self).seq().len() == old(self).seq().len(),
            ok == (old(self).pos() < old(self).window_end()),
            ok ==> {
                &&& final(self).seq() == old(self).seq().update(old(self).pos(), value)
                &&& final(self).pos() == old(self).pos() + 1
            },
            !ok ==> *final(self) == *old(self),
    {
        if self.idx < self.end {
            self.buf[self.idx] = value;
            self.idx = self.idx + 1;
            true
        } else {
            false
        }
    }

    /// Write all of `values` at the position and advance past them. Reports
    /// `false`, and leaves the cursor as it was, if they do not fit in the
    /// window.
    pub fn copy_from_slice(&mut self, values: &[T]) -> (ok: bool)
        requires
            old(self).wf(),
        ensures
            final(self).wf(),
            final(self).window_end() == old(self).window_end(),
            final(self).seq().len() == old(self).seq().len(),
            ok == (old(self).pos() + values@.len() <= old(self).window_end()),
            ok ==> {
                &&& final(self).seq() == old(self).seq().take(old(self).pos()) + values@ + old(
                    self,
                ).seq().skip(old(self).pos() + values@.len())
                &&& final(self).pos() == old(self).pos() + values@.len()
            },
            !ok ==> *final(self) == *old(self),
    {
        if values.len() <= self.end - self.idx {
            let mut i: usize = 0;
            while i < values.len()
                invariant
                    self.wf(),
                    i <= values@.len(),
                    self.idx == old(self).pos() + i,
                    self.end == old(self).window_end(),
                    old(self).pos() + values@.len() <= old(self).window_end(),
                    self.buf@.len() == old(self).seq().len(),
                    self.buf@ == old(self).seq().take(old(self).pos()) + values@.take(i as int)
                        + old(self).seq().skip(old(self).pos() + i),
                decreases values@.len() - i,
            {
                let v = *vstd::slice::slice_index_get(values, i);
                self.buf[self.idx] = v;
                self.idx = self.idx + 1;
                i = i + 1;
                proof {
                    assert(self.buf@ == old(self).seq().take(old(self).pos()) + values@.take(
                        i as int,
                    ) + old(self).seq().skip(old(self).pos() + i)) by {
                        assert(self.buf@ =~= old(self).seq().take(old(self).pos()) + values@.take(
                            i as int,
                        ) + old(self).seq().skip(old(self).pos() + i));
                    }
                }
            }
            proof {
                assert(values@.take(values@.len() as int) == values@);
            }
            true
        } else {
            false
        }
    }

    /// Hand the underlying buffer back, with everything written in place.
    pub fn into_vec(self) -> (buf: Vec<T>)
        ensures
            buf@ == self.seq(),
    {
        self.buf
    }
}

} // verus!
