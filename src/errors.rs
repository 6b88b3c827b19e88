//! The two failures of the buffer operations: a write that would not fit,
//! and a position that lies outside the occupied bytes.
use vstd::prelude::*;

verus! {

/// The numbers an error carries; a field that does not apply to the kind of
/// error stays zero.
#[derive(Debug, Clone, Copy, PartialEq, Eq, Structural)]
struct ErrorBase {
    buffer: usize,
    value: usize,
    len: usize,
    index: usize,
}

/// A write needed more room than the buffer has: `buffer` is the capacity,
/// `value` the length that the write would have produced.
#[derive(Debug, Clone, Copy, PartialEq, Eq, Structural)]
pub struct NotEnoughCapacity(ErrorBase);

/// A position was outside what the operation accepts: `len` is the length of
/// the content, `index` the position asked for.
#[derive(Debug, Clone, Copy, PartialEq, Eq, Structural)]
pub struct InvalidIndex(ErrorBase);

impl NotEnoughCapacity {
    /// The capacity recorded in the error.
    pub closed spec fn spec_buffer(&self) -> usize {
        self.0.buffer
    }

    /// The length the failed write asked for.
    pub closed spec fn spec_value(&self) -> usize {
        self.0.value
    }

    /// The error value that `throw(buffer, value)` builds.
    pub closed spec fn spec_throw(buffer: usize, value: usize) -> Self {
        NotEnoughCapacity(ErrorBase { buffer, value, len: 0, index: 0 })
    }

    /// The error for a write of `value` bytes into a buffer of capacity
    /// `buffer`.
    pub fn throw(buffer: usize, value: usize) -> (r: Self)
        ensures
            r == Self::spec_throw(buffer, value),
            r.spec_buffer() == buffer,
            r.spec_value() == value,
    {
        NotEnoughCapacity(ErrorBase { buffer, value, len: 0, index: 0 })
    }

    /// The capacity recorded in the error.
    pub fn buffer(&self) -> (r: usize)
        ensures
            r == self.spec_buffer(),
    {
        self.0.buffer
    }

    /// The length the failed write asked for.
    pub fn value(&self) -> (r: usize)
        ensures
            r == self.spec_value(),
    {
        self.0.value
    }
}

impl InvalidIndex {
    /// The content length recorded in the error.
    pub closed spec fn spec_len(&self) -> usize {
        self.0.len
    }

    /// The position recorded in the error.
    pub closed spec fn spec_index(&self) -> usize {
        self.0.index
    }

    /// The error value that `throw(len, index)` builds.
    pub closed spec fn spec_throw(len: usize, index: usize) -> Self {
        InvalidIndex(ErrorBase { buffer: 0, value: 0, len, index })
    }

    /// The error for an access at `index` in content of length `len`.
    pub fn throw(len: usize, index: usize) -> (r: Self)
        ensures
            r == Self::spec_throw(len, index),
            r.spec_len() == len,
            r.spec_index() == index,
    {
        InvalidIndex(ErrorBase { buffer: 0, value: 0, len, index })
    }

    /// The content length recorded in the error.
    pub fn len(&self) -> (r: usize)
        ensures
            r == self.spec_len(),
    {
        self.0.len
    }

    /// The position recorded in the error.
    pub fn index(&self) -> (r: usize)
        ensures
            r == self.spec_index(),
    {
        self.0.index
    }
}

/// An index error read as a capacity error: the length becomes the capacity
/// and the position the requested size.
impl From<InvalidIndex> for NotEnoughCapacity {
    fn from(value: InvalidIndex) -> (r: Self) {
        NotEnoughCapacity(ErrorBase { buffer: value.0.len, value: value.0.index, len: 0, index: 0 })
    }
}

impl vstd::std_specs::convert::FromSpecImpl<InvalidIndex> for NotEnoughCapacity {
    open spec fn obeys_from_spec() -> bool {
        true
    }

    open spec fn from_spec(v: InvalidIndex) -> Self {
        NotEnoughCapacity::spec_throw(v.spec_len(), v.spec_index())
    }
}

/// A capacity error read as an index error: the capacity becomes the length
/// and the requested size the position.
impl From<NotEnoughCapacity> for InvalidIndex {
    fn from(value: NotEnoughCapacity) -> (r: Self) {
        InvalidIndex(ErrorBase { buffer: 0, value: 0, len: value.0.buffer, index: value.0.value })
    }
}

impl vstd::std_specs::convert::FromSpecImpl<NotEnoughCapacity> for InvalidIndex {
    open spec fn obeys_from_spec() -> bool {
        true
    }

    open spec fn from_spec(v: NotEnoughCapacity) -> Self {
        InvalidIndex::spec_throw(v.spec_buffer(), v.spec_value())
    }
}

} // verus!
