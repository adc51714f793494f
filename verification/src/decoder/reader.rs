//! Reading within bounds.

use vstd::prelude::*;
use crate::common::error;
use crate::common::error::{invalid, CrfError, CrfResult, Fault};

verus! {

/// A part of some bytes.
#[derive(Debug, Clone, Copy)]
pub struct BoundedSlice<'a> {
    data: &'a [u8],
    offset: usize,
    len: usize,
}

impl<'a> BoundedSlice<'a> {
    pub closed spec fn wf(&self) -> bool {
        self.offset + self.len <= self.data@.len()
    }

    pub closed spec fn view(&self) -> Seq<u8> {
        self.data@.subrange(self.offset as int, self.offset + self.len)
    }

    /// The `len` bytes from `offset` on.
    pub fn new(data: &'a [u8], offset: usize, len: usize) -> (r: CrfResult<BoundedSlice<'a>>)
        ensures
            r is Ok <==> offset + len <= data@.len(),
            r is Ok ==> r->Ok_0.wf() && r->Ok_0@ == data@.subrange(offset as int, offset + len),
            r is Err ==> error::fault(r->Err_0) == if offset + len > usize::MAX {
                Fault::Invalid
            } else {
                Fault::Short { expected: offset + len, actual: data@.len() as int }
            },
    {
        let n: usize = data.len();
        if len > usize::MAX - offset {
            return Err(invalid("offset"));
        }
        let end: usize = offset + len;
        if end > n {
            return Err(CrfError::InsufficientData { expected: end, actual: n });
        }
        Ok(BoundedSlice { data, offset, len })
    }

    /// The bytes.
    pub fn as_slice(&self) -> (s: &'a [u8])
        requires
            self.wf(),
        ensures
            s@ == self@,
    {
        let n: usize = self.data.len();
        assert(self.offset + self.len <= n);
        vstd::slice::slice_subrange(self.data, self.offset, self.offset + self.len)
    }

    /// Number of bytes.
    pub fn remaining(&self) -> (n: usize)
        requires
            self.wf(),
        ensures
            n == self@.len(),
    {
        self.len
    }

    /// Whether there are no bytes.
    pub fn is_empty(&self) -> (b: bool)
        requires
            self.wf(),
        ensures
            b == (self@.len() == 0),
    {
        self.len == 0
    }
}

/// Reads a part of some bytes from front to back.
#[derive(Debug)]
pub struct BoundedReader<'a> {
    slice: BoundedSlice<'a>,
    pos: usize,
}

impl<'a> BoundedReader<'a> {
    pub closed spec fn wf(&self) -> bool {
        self.slice.wf() && self.pos <= self.slice.len
    }

    /// All the bytes of the part.
    pub closed spec fn all(&self) -> Seq<u8> {
        self.slice@
    }

    /// Number of bytes read.
    pub closed spec fn at(&self) -> int {
        self.pos as int
    }

    /// A reader of the `len` bytes from `offset` on.
    pub fn new(data: &'a [u8], offset: usize, len: usize) -> (r: CrfResult<BoundedReader<'a>>)
        ensures
            r is Ok <==> offset + len <= data@.len(),
            r is Ok ==> r->Ok_0.wf() && r->Ok_0.at() == 0 && r->Ok_0.all() == data@.subrange(
                offset as int,
                offset + len,
            ),
            r is Err ==> error::fault(r->Err_0) == if offset + len > usize::MAX {
                Fault::Invalid
            } else {
                Fault::Short { expected: offset + len, actual: data@.len() as int }
            },
    {
        match BoundedSlice::new(data, offset, len) {
            Ok(slice) => Ok(BoundedReader { slice, pos: 0 }),
            Err(e) => Err(e),
        }
    }

    /// Reads the next `count` bytes. If there are not so many, nothing is read.
    pub fn read_bytes(&mut self, count: usize) -> (r: CrfResult<&'a [u8]>)
        requires
            old(self).wf(),
        ensures
            final(self).wf(),
            final(self).all() == old(self).all(),
            match r {
                Ok(s) => final(self).at() == old(self).at() + count && final(self).at() <= old(
                    self,
                ).all().len() && s@ == old(self).all().subrange(
                    old(self).at(),
                    old(self).at() + count,
                ),
                Err(e) => final(self).at() == old(self).at() && old(self).at() + count > old(
                    self,
                ).all().len() && error::fault(e) == if old(self).at() + count > usize::MAX {
                    Fault::Invalid
                } else {
                    Fault::Short {
                        expected: old(self).at() + count,
                        actual: old(self).all().len() as int,
                    }
                },
            },
    {
        if count > usize::MAX - self.pos {
            return Err(invalid("position"));
        }
        let end: usize = self.pos + count;
        if end > self.slice.len {
            return Err(CrfError::InsufficientData { expected: end, actual: self.slice.len });
        }
        let n: usize = self.slice.data.len();
        assert(self.slice.offset + self.slice.len <= n);
        let from: usize = self.slice.offset + self.pos;
        let s: &'a [u8] = vstd::slice::slice_subrange(self.slice.data, from, from + count);
        assert(s@ =~= self.slice@.subrange(self.pos as int, end as int));
        self.pos = end;
        Ok(s)
    }
}

} // verus!
