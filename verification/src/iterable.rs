//! Streams: finite sequences of known length that can be read from the start any
//! number of times.
//!
//! An [`Iterable`] never changes; each call of [`Iterable::iter`] opens a fresh
//! [`Cursor`] at the first item. A cursor hands the items out one by one, or
//! passes over a number of them at once.
use vstd::prelude::*;

verus! {

/// A position in a stream: the items still to come, in order.
pub trait Cursor<T> {
    /// Whether the cursor is in a valid state.
    spec fn wf(&self) -> bool;

    /// The items that the cursor has not handed out yet.
    spec fn remaining(&self) -> Seq<T>;

    /// Hands out the next item, or `None` at the end of the stream.
    fn next(&mut self) -> (r: Option<T>)
        requires
            old(self).wf(),
        ensures
            final(self).wf(),
            r is None <==> old(self).remaining().len() == 0,
            r is None ==> final(self).remaining() == old(self).remaining(),
            r is Some ==> r->0 == old(self).remaining()[0] && final(self).remaining() == old(
                self,
            ).remaining().skip(1),
    ;

    /// Passes over the next `n` items. Where fewer than `n` are left the cursor
    /// runs to the end, and the error holds the number of items that were missing.
    fn advance_by(&mut self, n: usize) -> (r: Result<(), usize>)
        requires
            old(self).wf(),
        ensures
            final(self).wf(),
            r is Ok <==> n <= old(self).remaining().len(),
            r is Ok ==> final(self).remaining() == old(self).remaining().skip(n as int),
            r is Err ==> final(self).remaining().len() == 0 && r->Err_0 == n - old(
                self,
            ).remaining().len(),
    ;
}

/// A finite stream of items of type `T`.
pub trait Iterable<T> {
    /// The cursors of this stream.
    type Iter: Cursor<T>;

    /// Whether the stream is in a valid state.
    spec fn wf(&self) -> bool;

    /// The items of the stream, in the order in which a cursor hands them out.
    spec fn items(&self) -> Seq<T>;

    /// The number of items.
    fn len(&self) -> (n: usize)
        requires
            self.wf(),
        ensures
            n == self.items().len(),
    ;

    /// A fresh cursor at the first item.
    fn iter(&self) -> (c: Self::Iter)
        requires
            self.wf(),
        ensures
            c.wf(),
            c.remaining() == self.items(),
    ;
}

/// A cursor over a slice, from its first item to its last.
pub struct SliceCursor<'a, T> {
    data: &'a [T],
    pos: usize,
}

impl<'a, T: Copy> Cursor<T> for SliceCursor<'a, T> {
    closed spec fn wf(&self) -> bool {
        self.pos <= self.data@.len()
    }

    closed spec fn remaining(&self) -> Seq<T> {
        self.data@.skip(self.pos as int)
    }

    fn next(&mut self) -> (r: Option<T>) {
        if self.pos < self.data.len() {
            let x = self.data[self.pos];
            self.pos = self.pos + 1;
            assert(old(self).remaining().skip(1) =~= self.remaining());
            Some(x)
        } else {
            None
        }
    }

    fn advance_by(&mut self, n: usize) -> (r: Result<(), usize>) {
        let left = self.data.len() - self.pos;
        if n <= left {
            self.pos = self.pos + n;
            assert(old(self).remaining().skip(n as int) =~= self.remaining());
            Ok(())
        } else {
            self.pos = self.data.len();
            Err(n - left)
        }
    }
}

impl<'a, T: Copy> Iterable<T> for &'a [T] {
    type Iter = SliceCursor<'a, T>;

    open spec fn wf(&self) -> bool {
        true
    }

    open spec fn items(&self) -> Seq<T> {
        self@
    }

    fn len(&self) -> (n: usize) {
        <[T]>::len(self)
    }

    fn iter(&self) -> (c: Self::Iter) {
        SliceCursor { data: *self, pos: 0 }
    }
}

/// A slice read from its last item to its first, without copying it.
pub struct Reverse<'a, T>(pub &'a [T]);

/// A cursor over a slice, from its last item to its first.
pub struct ReverseCursor<'a, T> {
    data: &'a [T],
    left: usize,
}

impl<'a, T: Copy> Cursor<T> for ReverseCursor<'a, T> {
    closed spec fn wf(&self) -> bool {
        self.left <= self.data@.len()
    }

    closed spec fn remaining(&self) -> Seq<T> {
        self.data@.take(self.left as int).reverse()
    }

    fn next(&mut self) -> (r: Option<T>) {
        if self.left > 0 {
            self.left = self.left - 1;
            let x = self.data[self.left];
            assert(old(self).remaining().skip(1) =~= self.remaining());
            Some(x)
        } else {
            None
        }
    }

    fn advance_by(&mut self, n: usize) -> (r: Result<(), usize>) {
        if n <= self.left {
            self.left = self.left - n;
            assert(old(self).remaining().skip(n as int) =~= self.remaining());
            Ok(())
        } else {
            let missing = n - self.left;
            self.left = 0;
            Err(missing)
        }
    }
}

impl<'a, T: Copy> Iterable<T> for Reverse<'a, T> {
    type Iter = ReverseCursor<'a, T>;

    open spec fn wf(&self) -> bool {
        true
    }

    open spec fn items(&self) -> Seq<T> {
        self.0@.reverse()
    }

    fn len(&self) -> (n: usize) {
        self.0.len()
    }

    fn iter(&self) -> (c: Self::Iter) {
        let c = ReverseCursor { data: self.0, left: self.0.len() };
        assert(self.0@.take(self.0@.len() as int) =~= self.0@);
        c
    }
}

/// The next item of a cursor that has one.
pub fn read<T, C: Cursor<T>>(cursor: &mut C) -> (x: T)
    requires
        old(cursor).wf(),
        old(cursor).remaining().len() > 0,
    ensures
        final(cursor).wf(),
        x == old(cursor).remaining()[0],
        final(cursor).remaining() == old(cursor).remaining().skip(1),
{
    match cursor.next() {
        Some(x) => x,
        None => vstd::pervasive::unreached(),
    }
}

/// Passes over the next `n` items of a cursor that has as many.
pub fn skip<T, C: Cursor<T>>(cursor: &mut C, n: usize)
    requires
        old(cursor).wf(),
        n <= old(cursor).remaining().len(),
    ensures
        final(cursor).wf(),
        final(cursor).remaining() == old(cursor).remaining().skip(n as int),
{
    match cursor.advance_by(n) {
        Ok(()) => {},
        Err(_) => vstd::pervasive::unreached(),
    }
}

/// Reads up to `limit` items from a cursor into a vector.
pub fn take_chunk<T, C: Cursor<T>>(cursor: &mut C, limit: usize) -> (chunk: Vec<T>)
    requires
        old(cursor).wf(),
    ensures
        final(cursor).wf(),
        chunk@.len() == if limit <= old(cursor).remaining().len() {
            limit as int
        } else {
            old(cursor).remaining().len() as int
        },
        chunk@ == old(cursor).remaining().take(chunk@.len() as int),
        final(cursor).remaining() == old(cursor).remaining().skip(chunk@.len() as int),
{
    let mut chunk: Vec<T> = Vec::new();
    let ghost all = cursor.remaining();
    while chunk.len() < limit
        invariant
            cursor.wf(),
            chunk@.len() <= limit,
            chunk@.len() <= all.len(),
            chunk@ == all.take(chunk@.len() as int),
            cursor.remaining() == all.skip(chunk@.len() as int),
        ensures
            chunk@.len() == if limit <= all.len() {
                limit as int
            } else {
                all.len() as int
            },
        decreases limit - chunk.len(),
    {
        match cursor.next() {
            Some(x) => {
                proof {
                    let n = chunk@.len() as int;
                    assert(all.take(n + 1) =~= all.take(n).push(all[n]));
                    assert(all.skip(n).skip(1) =~= all.skip(n + 1));
                }
                chunk.push(x);
            },
            None => {
                break ;
            },
        }
    }
    chunk
}

} // verus!
