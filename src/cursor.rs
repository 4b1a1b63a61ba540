//! A position over a byte buffer: reads never pass its end, writes never
//! pass its capacity.
use vstd::prelude::*;
use vstd::slice::slice_subrange;

use crate::ErrorKind;

verus! {

/// A buffer together with the position of the next byte to read or write.
#[derive(Debug)]
pub struct Cursor<T> {
    pub data: T,
    pub offset: usize,
}

impl<T> Cursor<T> {
    /// A cursor at the start of `data`.
    pub fn new(data: T) -> (r: Self)
        ensures
            r.data == data,
            r.offset == 0,
    {
        Cursor { data, offset: 0 }
    }
}

impl<'a> Cursor<&'a [u8]> {
    /// The position lies within the buffer.
    pub open spec fn wf(&self) -> bool {
        self.offset <= self.data@.len()
    }

    /// The bytes not read yet.
    pub open spec fn rest(&self) -> Seq<u8> {
        self.data@.subrange(self.offset as int, self.data@.len() as int)
    }

    /// The unread tail of the buffer; the position is left as it is.
    pub fn remaining_slice(&self) -> (r: &'a [u8])
        ensures
            self.offset <= self.data@.len() ==> r@ == self.rest(),
            self.offset > self.data@.len() ==> r@.len() == 0,
    {
        let len = self.data.len();
        let start = if self.offset < len {
            self.offset
        } else {
            len
        };
        slice_subrange(self.data, start, len)
    }

    /// Takes the next `len` bytes and moves past them, or fails with
    /// `InsufficientBytes` and leaves the position where it was.
    pub fn read_slice(&mut self, len: usize) -> (r: crate::Result<&'a [u8]>)
        requires
            old(self).wf(),
        ensures
            final(self).wf(),
            final(self).data == old(self).data,
            len <= old(self).rest().len() ==> r == Ok::<&'a [u8], ErrorKind>(r->Ok_0) && r->Ok_0@
                == old(self).rest().take(len as int) && final(self).offset == old(self).offset
                + len,
            len > old(self).rest().len() ==> r == Err::<&'a [u8], ErrorKind>(
                ErrorKind::InsufficientBytes,
            ) && final(self).offset == old(self).offset,
    {
        let avail = self.data.len() - self.offset;
        if len > avail {
            return Err(ErrorKind::InsufficientBytes);
        }
        let start = self.offset;
        let s = slice_subrange(self.data, start, start + len);
        self.offset = start + len;
        proof {
            assert(s@ =~= old(self).rest().take(len as int));
        }
        Ok(s)
    }
}

impl<'a> Cursor<&'a [u8]> {
    /// Takes the next byte and moves past it, or fails with
    /// `InsufficientBytes` at the end of the buffer.
    pub(crate) fn read_byte(&mut self) -> (r: crate::Result<u8>)
        requires
            old(self).wf(),
        ensures
            final(self).wf(),
            final(self).data == old(self).data,
            old(self).rest().len() > 0 ==> {
                &&& r == Ok::<u8, ErrorKind>(old(self).rest()[0])
                &&& final(self).offset == old(self).offset + 1
                &&& final(self).rest() == old(self).rest().drop_first()
            },
            old(self).rest().len() == 0 ==> {
                &&& r == Err::<u8, ErrorKind>(ErrorKind::InsufficientBytes)
                &&& final(self).offset == old(self).offset
            },
    {
        match self.read_slice(1) {
            Ok(s) => {
                proof {
                    assert(self.rest() =~= old(self).rest().drop_first());
                }
                Ok(s[0])
            },
            Err(e) => Err(e),
        }
    }
}

impl Cursor<Vec<u8>> {
    /// The position lies within the buffer's capacity.
    pub open spec fn wf(&self) -> bool {
        self.offset <= self.data@.len()
    }

    /// Overwrites the bytes at the position with `slice` and moves past them,
    /// or fails with `InsufficientBytes`, changing nothing, where they do not
    /// fit in the buffer.
    pub fn write_slice(&mut self, slice: &[u8]) -> (r: crate::Result<()>)
        requires
            old(self).wf(),
        ensures
            final(self).wf(),
            old(self).offset + slice@.len() <= old(self).data@.len() ==> {
                &&& r is Ok
                &&& final(self).offset == old(self).offset + slice@.len()
                &&& final(self).data@ == old(self).data@.take(old(self).offset as int) + slice@
                    + old(self).data@.skip(old(self).offset + slice@.len())
            },
            old(self).offset + slice@.len() > old(self).data@.len() ==> {
                &&& r == Err::<(), ErrorKind>(ErrorKind::InsufficientBytes)
                &&& *final(self) == *old(self)
            },
    {
        let avail = self.data.len() - self.offset;
        if slice.len() > avail {
            return Err(ErrorKind::InsufficientBytes);
        }
        let start = self.offset;
        let end = start + slice.len();
        let mut i: usize = 0;
        while i < slice.len()
            invariant
                i <= slice@.len(),
                end == start + slice@.len(),
                start == old(self).offset,
                start + slice@.len() <= self.data@.len(),
                self.data@.len() == old(self).data@.len(),
                forall|j: int| 0 <= j < start ==> self.data@[j] == old(self).data@[j],
                forall|j: int| 0 <= j < i ==> self.data@[start + j] == slice@[j],
                forall|j: int|
                    start + i <= j < self.data@.len() ==> self.data@[j] == old(self).data@[j],
            decreases slice@.len() - i,
        {
            self.data.set(start + i, slice[i]);
            i = i + 1;
        }
        self.offset = end;
        proof {
            assert(self.data@ =~= old(self).data@.take(start as int) + slice@ + old(
                self,
            ).data@.skip(start + slice@.len()));
        }
        Ok(())
    }
}

} // verus!
