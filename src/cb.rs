//! `BFRDYN`: a buffer of `CAPACITY` bytes of which the first `len()` are the
//! content, edited in place.
use vstd::prelude::*;
use vstd::slice::slice_to_vec;
use vstd::string::StringSliceAdditionalSpecFns;
use vstd::utf8::{decode_utf8, encode_utf8, valid_utf8};
use crate::errors::{InvalidIndex, NotEnoughCapacity};
use crate::model::{
    byte_sum, in_order, is_sorted, lemma_byte_sum_prefix, lemma_byte_sum_step, lemma_swap_multiset,
    lower_all, lower_byte, ltrim_spaces, proper_case, rtrim_spaces, title_case, upper_all,
    upper_byte, zeros,
};
use crate::split::{SplitRule, cut, hit, restart, resume, scan, segments};
use crate::text::{char_bytes, decode_all, lossy_text, text_of};

verus! {

/// The capacity of a buffer made by `BFRDYN::def`.
pub const DEFCAPACITY: usize = 256;

/// Outcome of an operation that can run out of room.
pub type NecResult = Result<(), NotEnoughCapacity>;

/// Outcome of an operation that takes a position.
pub type IidxResult = Result<(), InvalidIndex>;

/// A byte buffer whose storage is an array of `CAPACITY` bytes; the first
/// `len` of them are the content and the rest are zero.
#[derive(Debug, Clone)]
pub struct BFRDYN<const CAPACITY: usize> {
    arr: [u8; CAPACITY],
    len: usize,
}

impl<const CAPACITY: usize> View for BFRDYN<CAPACITY> {
    type V = Seq<u8>;

    /// The content: the first `len` bytes of the storage.
    closed spec fn view(&self) -> Seq<u8> {
        self.arr@.take(self.len as int)
    }
}

impl BFRDYN<DEFCAPACITY> {
    /// An empty buffer of the default capacity.
    pub fn def() -> (r: Self)
        ensures
            r.wf(),
            r@ == Seq::<u8>::empty(),
    {
        let r = BFRDYN { arr: [0u8; DEFCAPACITY], len: 0 };
        proof { assert(r@ =~= Seq::<u8>::empty()); }
        r
    }

    /// An empty buffer of capacity `CAP`.
    pub fn withcap<const CAP: usize>() -> (r: BFRDYN<CAP>)
        ensures
            r.wf(),
            r@ == Seq::<u8>::empty(),
    {
        BFRDYN::<CAP>::new()
    }
}

impl<const CAPACITY: usize> BFRDYN<CAPACITY> {
    /// The length never exceeds the capacity, and the storage past the
    /// content holds zeros.
    pub closed spec fn wf(&self) -> bool {
        &&& self.len <= CAPACITY
        &&& self.arr@.len() == CAPACITY
        &&& forall|i: int| self.len <= i < CAPACITY ==> self.arr@[i] == 0u8
    }

    /// The whole storage: the content followed by zeros.
    pub open spec fn storage(&self) -> Seq<u8> {
        self@ + zeros((CAPACITY - self@.len()) as nat)
    }

    proof fn lemma_storage(&self)
        requires
            self.wf(),
        ensures
            self.arr@ == self.storage(),
            self@.len() == self.len,
            self@.len() <= CAPACITY,
    {
        assert(self.arr@ =~= self.storage());
    }

    /// Every well-formed buffer holds at most `CAPACITY` bytes of content, so
    /// `len() <= capacity()` after every operation, each of which keeps the
    /// buffer well-formed.
    pub proof fn lemma_len_within_capacity(&self)
        requires
            self.wf(),
        ensures
            self@.len() <= CAPACITY,
    {
    }

    /// An empty buffer.
    pub fn new() -> (r: Self)
        ensures
            r.wf(),
            r@ == Seq::<u8>::empty(),
    {
        let r = BFRDYN { arr: [0u8; CAPACITY], len: 0 };
        proof { assert(r@ =~= Seq::<u8>::empty()); }
        r
    }

    /// A copy of the whole storage: the content, then zeros up to the capacity.
    pub fn as_bytes(&self) -> (r: [u8; CAPACITY])
        requires
            self.wf(),
        ensures
            r@ == self.storage(),
    {
        proof { self.lemma_storage(); }
        self.arr
    }

    /// The whole storage, consuming the buffer.
    pub fn take_inner(self) -> (r: [u8; CAPACITY])
        requires
            self.wf(),
        ensures
            r@ == self.storage(),
    {
        proof { self.lemma_storage(); }
        self.arr
    }

    /// Number of bytes the buffer can hold.
    pub fn capacity(&self) -> (r: usize)
        ensures
            r == CAPACITY,
    {
        CAPACITY
    }

    /// Number of content bytes.
    pub fn len(&self) -> (r: usize)
        requires
            self.wf(),
        ensures
            r == self@.len(),
    {
        self.len
    }

    /// Sum of the content's byte values.
    pub fn checksum(&self) -> (r: usize)
        requires
            self.wf(),
            byte_sum(self@) <= usize::MAX,
        ensures
            r == byte_sum(self@),
    {
        let mut result: usize = 0;
        let mut i: usize = 0;
        while i < self.len
            invariant
                self.wf(),
                byte_sum(self@) <= usize::MAX,
                i <= self.len,
                result == byte_sum(self@.take(i as int)),
            decreases self.len - i,
        {
            proof {
                lemma_byte_sum_step(self@, i as int);
                lemma_byte_sum_prefix(self@, i as int + 1);
            }
            result = result + self.arr[i] as usize;
            i = i + 1;
        }
        proof { assert(self@.take(i as int) =~= self@); }
        result
    }

    /// The last byte of the content, or 0 when it is empty.
    pub fn last(&self) -> (r: u8)
        requires
            self.wf(),
        ensures
            r == (if self@.len() > 0 { self@.last() } else { 0u8 }),
    {
        if self.len > 0 {
            self.arr[self.len - 1]
        } else {
            0u8
        }
    }

    /// The last byte of the content as a `char`, or `'\0'` when it is empty.
    pub fn last_char(&self) -> (r: char)
        requires
            self.wf(),
        ensures
            r == (if self@.len() > 0 { self@.last() as char } else { '\0' }),
    {
        if self.len > 0 {
            self.arr[self.len - 1] as char
        } else {
            '\0'
        }
    }

    /// Empties the buffer.
    pub fn clear(&mut self)
        ensures
            final(self).wf(),
            final(self)@ == Seq::<u8>::empty(),
    {
        self.arr = [0u8; CAPACITY];
        self.len = 0;
        proof { assert(self@ =~= Seq::<u8>::empty()); }
    }

    /// A buffer holding the bytes of `value`; fails when they do not fit.
    pub fn from_slice(value: &[u8]) -> (r: Result<Self, NotEnoughCapacity>)
        ensures
            value@.len() <= CAPACITY ==> r is Ok && r->Ok_0.wf() && r->Ok_0@ == value@,
            value@.len() > CAPACITY ==> r == Err::<Self, _>(
                NotEnoughCapacity::spec_throw(CAPACITY, value@.len() as usize),
            ),
    {
        if value.len() <= CAPACITY {
            let mut me = Self::new();
            me.append_bytes(value, value.len());
            proof { assert(value@.take(value@.len() as int) =~= value@); }
            proof { assert(me@ =~= value@); }
            Ok(me)
        } else {
            Err(NotEnoughCapacity::throw(CAPACITY, value.len()))
        }
    }

    /// A buffer holding the UTF-8 bytes of `text`; fails when they do not fit.
    pub fn from_text(text: &str) -> (r: Result<Self, NotEnoughCapacity>)
        ensures
            text.spec_bytes().len() <= CAPACITY ==> r is Ok && r->Ok_0.wf() && r->Ok_0@
                == text.spec_bytes(),
            text.spec_bytes().len() > CAPACITY ==> r == Err::<Self, _>(
                NotEnoughCapacity::spec_throw(CAPACITY, text.spec_bytes().len() as usize),
            ),
    {
        Self::from_slice(text.as_bytes())
    }

    /// Writes the first `n` bytes of `b` after the content.
    fn append_bytes(&mut self, b: &[u8], n: usize)
        requires
            old(self).wf(),
            n <= b@.len(),
            old(self)@.len() + n <= CAPACITY,
        ensures
            final(self).wf(),
            final(self)@ == old(self)@ + b@.take(n as int),
    {
        let start = self.len;
        let mut i: usize = 0;
        while i < n
            invariant
                start == old(self).len,
                old(self).wf(),
                start + n <= CAPACITY,
                n <= b@.len(),
                self.len == start,
                i <= n,
                self.arr@.len() == CAPACITY,
                forall|j: int| 0 <= j < start ==> self.arr@[j] == old(self).arr@[j],
                forall|j: int| start <= j < start + i ==> self.arr@[j] == b@[j - start],
                forall|j: int| start + i <= j < CAPACITY ==> self.arr@[j] == 0u8,
            decreases n - i,
        {
            self.arr[start + i] = b[i];
            i = i + 1;
        }
        self.len = start + n;
        proof { assert(self@ =~= old(self)@ + b@.take(n as int)); }
    }

    /// Writes the first `n` bytes of `b` at position `pos`, moving the content
    /// from `pos` on `n` places to the right.
    fn insert_bytes(&mut self, b: &[u8], n: usize, pos: usize)
        requires
            old(self).wf(),
            n <= b@.len(),
            pos <= old(self)@.len(),
            old(self)@.len() + n <= CAPACITY,
        ensures
            final(self).wf(),
            final(self)@ == old(self)@.take(pos as int) + b@.take(n as int) + old(self)@.skip(
                pos as int,
            ),
    {
        let len = self.len;
        let mut j: usize = len;
        while j > pos
            invariant
                len == old(self).len,
                old(self).wf(),
                len + n <= CAPACITY,
                pos <= j <= len,
                self.len == len,
                self.arr@.len() == CAPACITY,
                forall|t: int| 0 <= t < j + n ==> self.arr@[t] == old(self).arr@[t],
                forall|t: int| j + n <= t < len + n ==> self.arr@[t] == old(self).arr@[t - n],
                forall|t: int| len + n <= t < CAPACITY ==> self.arr@[t] == 0u8,
            decreases j,
        {
            j = j - 1;
            self.arr[j + n] = self.arr[j];
        }
        let mut i: usize = 0;
        while i < n
            invariant
                len == old(self).len,
                old(self).wf(),
                len + n <= CAPACITY,
                n <= b@.len(),
                pos <= len,
                self.len == len,
                i <= n,
                self.arr@.len() == CAPACITY,
                forall|t: int| 0 <= t < pos ==> self.arr@[t] == old(self).arr@[t],
                forall|t: int| pos <= t < pos + i ==> self.arr@[t] == b@[t - pos],
                forall|t: int| pos + n <= t < len + n ==> self.arr@[t] == old(self).arr@[t - n],
                forall|t: int| len + n <= t < CAPACITY ==> self.arr@[t] == 0u8,
            decreases n - i,
        {
            self.arr[pos + i] = b[i];
            i = i + 1;
        }
        self.len = len + n;
        proof {
            assert(self@ =~= old(self)@.take(pos as int) + b@.take(n as int) + old(self)@.skip(
                pos as int,
            ));
        }
    }

    /// Writes the content of `other` after this buffer's content; fails,
    /// leaving the buffer as it was, when the two do not fit together.
    pub fn append(&mut self, other: Self) -> (r: NecResult)
        requires
            old(self).wf(),
            other.wf(),
            old(self)@.len() + other@.len() <= usize::MAX,
        ensures
            final(self).wf(),
            old(self)@.len() + other@.len() <= CAPACITY ==> r is Ok && final(self)@ == old(self)@
                + other@,
            old(self)@.len() + other@.len() > CAPACITY ==> r == Err::<(), _>(
                NotEnoughCapacity::spec_throw(CAPACITY, (old(self)@.len() + other@.len()) as usize),
            ) && final(self)@ == old(self)@,
    {
        proof { self.lemma_storage(); other.lemma_storage(); }
        let total_len = self.len + other.len;
        if total_len <= CAPACITY {
            self.append_bytes(other.arr.as_slice(), other.len);
            Ok(())
        } else {
            Err(NotEnoughCapacity::throw(CAPACITY, total_len))
        }
    }

    /// Writes the UTF-8 bytes of `text` after the content; fails, leaving the
    /// buffer as it was, when they do not fit.
    pub fn append_str(&mut self, text: &str) -> (r: NecResult)
        requires
            old(self).wf(),
            old(self)@.len() + text.spec_bytes().len() <= usize::MAX,
        ensures
            final(self).wf(),
            old(self)@.len() + text.spec_bytes().len() <= CAPACITY ==> r is Ok && final(self)@
                == old(self)@ + text.spec_bytes(),
            old(self)@.len() + text.spec_bytes().len() > CAPACITY ==> r == Err::<(), _>(
                NotEnoughCapacity::spec_throw(
                    CAPACITY,
                    (old(self)@.len() + text.spec_bytes().len()) as usize,
                ),
            ) && final(self)@ == old(self)@,
    {
        proof { self.lemma_storage(); }
        let bytes = text.as_bytes();
        if bytes.len() <= CAPACITY - self.len {
            self.append_bytes(bytes, bytes.len());
            proof { assert(bytes@.take(bytes@.len() as int) =~= bytes@); }
            Ok(())
        } else {
            Err(NotEnoughCapacity::throw(CAPACITY, self.len + bytes.len()))
        }
    }

    /// Writes the UTF-8 encoding of `c` after the content; fails, leaving the
    /// buffer as it was, when it does not fit.
    pub fn append_ch(&mut self, c: char) -> (r: NecResult)
        requires
            old(self).wf(),
            old(self)@.len() + encode_utf8(seq![c]).len() <= usize::MAX,
        ensures
            final(self).wf(),
            old(self)@.len() + encode_utf8(seq![c]).len() <= CAPACITY ==> r is Ok && final(self)@
                == old(self)@ + encode_utf8(seq![c]),
            old(self)@.len() + encode_utf8(seq![c]).len() > CAPACITY ==> r == Err::<(), _>(
                NotEnoughCapacity::spec_throw(
                    CAPACITY,
                    (old(self)@.len() + encode_utf8(seq![c]).len()) as usize,
                ),
            ) && final(self)@ == old(self)@,
    {
        proof { self.lemma_storage(); }
        let bytes = char_bytes(c);
        if bytes.len() <= CAPACITY - self.len {
            self.append_bytes(bytes.as_slice(), bytes.len());
            proof { assert(bytes@.take(bytes@.len() as int) =~= bytes@); }
            Ok(())
        } else {
            Err(NotEnoughCapacity::throw(CAPACITY, self.len + bytes.len()))
        }
    }

    /// Puts the content of `other` in front of this buffer's content, without
    /// a capacity check: the caller guarantees that both fit. Afterwards
    /// `other` holds what this buffer held before.
    pub fn prepend_unchecked(&mut self, other: &mut Self)
        requires
            old(self).wf(),
            old(other).wf(),
            old(self)@.len() + old(other)@.len() <= CAPACITY,
        ensures
            final(self).wf(),
            final(other).wf(),
            final(self)@ == old(other)@ + old(self)@,
            final(other)@ == old(self)@,
    {
        proof { self.lemma_storage(); other.lemma_storage(); }
        std::mem::swap(self, other);
        self.append_bytes(other.arr.as_slice(), other.len);
        proof { assert(other.arr@.take(other.len as int) =~= other@); }
    }

    /// Puts the content of `other` in front of the content; fails, leaving
    /// the buffer as it was, when the two do not fit together.
    pub fn prepend(&mut self, other: Self) -> (r: NecResult)
        requires
            old(self).wf(),
            other.wf(),
            old(self)@.len() + other@.len() <= usize::MAX,
        ensures
            final(self).wf(),
            old(self)@.len() + other@.len() <= CAPACITY ==> r is Ok && final(self)@ == other@
                + old(self)@,
            old(self)@.len() + other@.len() > CAPACITY ==> r == Err::<(), _>(
                NotEnoughCapacity::spec_throw(CAPACITY, (old(self)@.len() + other@.len()) as usize),
            ) && final(self)@ == old(self)@,
    {
        proof { self.lemma_storage(); other.lemma_storage(); }
        let total_len = self.len + other.len;
        if total_len <= CAPACITY {
            let mut other = other;
            self.prepend_unchecked(&mut other);
            Ok(())
        } else {
            Err(NotEnoughCapacity::throw(CAPACITY, total_len))
        }
    }

    /// Puts the UTF-8 bytes of `text` in front of the content; fails, leaving
    /// the buffer as it was, when they do not fit.
    pub fn prepend_str(&mut self, text: &str) -> (r: NecResult)
        requires
            old(self).wf(),
            old(self)@.len() + text.spec_bytes().len() <= usize::MAX,
        ensures
            final(self).wf(),
            old(self)@.len() + text.spec_bytes().len() <= CAPACITY ==> r is Ok && final(self)@
                == text.spec_bytes() + old(self)@,
            old(self)@.len() + text.spec_bytes().len() > CAPACITY ==> r == Err::<(), _>(
                NotEnoughCapacity::spec_throw(
                    CAPACITY,
                    (old(self)@.len() + text.spec_bytes().len()) as usize,
                ),
            ) && final(self)@ == old(self)@,
    {
        proof { self.lemma_storage(); }
        let bytes = text.as_bytes();
        if bytes.len() <= CAPACITY - self.len {
            self.insert_bytes(bytes, bytes.len(), 0);
            proof {
                assert(old(self)@.take(0) + bytes@.take(bytes@.len() as int) + old(self)@.skip(0)
                    =~= bytes@ + old(self)@);
            }
            Ok(())
        } else {
            Err(NotEnoughCapacity::throw(CAPACITY, self.len + bytes.len()))
        }
    }

    /// Opens a one-byte gap at `pos` by moving the content from `pos` on one
    /// place to the right; the byte at `pos` is thus doubled. Fails, leaving
    /// the buffer as it was, unless `pos` is inside the content and the buffer
    /// is not full.
    pub fn rshift(&mut self, pos: usize) -> (r: IidxResult)
        requires
            old(self).wf(),
        ensures
            final(self).wf(),
            pos < old(self)@.len() && old(self)@.len() < CAPACITY ==> r is Ok && final(self)@
                == old(self)@.insert(pos as int, old(self)@[pos as int]),
            !(pos < old(self)@.len() && old(self)@.len() < CAPACITY) ==> r == Err::<(), _>(
                InvalidIndex::spec_throw(old(self)@.len() as usize, pos),
            ) && final(self)@ == old(self)@,
    {
        proof { self.lemma_storage(); }
        if pos < self.len && self.len < CAPACITY {
            let b = [self.arr[pos]];
            self.insert_bytes(b.as_slice(), 1, pos);
            proof {
                assert(old(self)@.take(pos as int) + b@.take(1) + old(self)@.skip(pos as int)
                    =~= old(self)@.insert(pos as int, old(self)@[pos as int]));
            }
            Ok(())
        } else {
            Err(InvalidIndex::throw(self.len, pos))
        }
    }

    /// Removes the byte at `pos`, moving the content after it one place to
    /// the left. Fails, leaving the buffer as it was, unless `pos` is inside
    /// the content.
    pub fn lshift(&mut self, pos: usize) -> (r: IidxResult)
        requires
            old(self).wf(),
        ensures
            final(self).wf(),
            pos < old(self)@.len() ==> r is Ok && final(self)@ == old(self)@.remove(pos as int),
            pos >= old(self)@.len() ==> r == Err::<(), _>(
                InvalidIndex::spec_throw(old(self)@.len() as usize, pos),
            ) && final(self)@ == old(self)@,
    {
        proof { self.lemma_storage(); }
        if pos < self.len {
            let len = self.len;
            let mut i: usize = pos;
            while i + 1 < len
                invariant
                    len == old(self).len,
                    old(self).wf(),
                    pos < len <= CAPACITY,
                    pos <= i < len,
                    self.len == len,
                    self.arr@.len() == CAPACITY,
                    forall|t: int| 0 <= t < pos ==> self.arr@[t] == old(self).arr@[t],
                    forall|t: int| pos <= t < i ==> self.arr@[t] == old(self).arr@[t + 1],
                    forall|t: int| i <= t < CAPACITY ==> self.arr@[t] == old(self).arr@[t],
                decreases len - i,
            {
                self.arr[i] = self.arr[i + 1];
                i = i + 1;
            }
            self.arr[len - 1] = 0u8;
            self.len = len - 1;
            proof { assert(self@ =~= old(self)@.remove(pos as int)); }
            Ok(())
        } else {
            Err(InvalidIndex::throw(self.len, pos))
        }
    }

    /// Removes the byte at `pos` and returns it; `None`, with the buffer
    /// unchanged, when `pos` is not inside the content.
    pub fn take(&mut self, pos: usize) -> (r: Option<u8>)
        requires
            old(self).wf(),
        ensures
            final(self).wf(),
            pos < old(self)@.len() ==> r == Some(old(self)@[pos as int]) && final(self)@ == old(
                self,
            )@.remove(pos as int),
            pos >= old(self)@.len() ==> r is None && final(self)@ == old(self)@,
    {
        proof { self.lemma_storage(); }
        if pos < self.len {
            let result = self.arr[pos];
            let _ = self.lshift(pos);
            Some(result)
        } else {
            None
        }
    }

    /// Writes the content of `other` at `pos`, moving what stood from `pos` on
    /// to the right. Fails, leaving the buffer as it was, when the two do not
    /// fit together, or, with the length and `pos` in the error, when `pos`
    /// is not inside the content.
    pub fn insert(&mut self, other: Self, pos: usize) -> (r: NecResult)
        requires
            old(self).wf(),
            other.wf(),
            old(self)@.len() + other@.len() <= usize::MAX,
        ensures
            final(self).wf(),
            old(self)@.len() + other@.len() <= CAPACITY && pos < old(self)@.len() ==> r is Ok
                && final(self)@ == old(self)@.take(pos as int) + other@ + old(self)@.skip(
                pos as int,
            ),
            old(self)@.len() + other@.len() <= CAPACITY && pos >= old(self)@.len() ==> r == Err::<
                (),
                _,
            >(NotEnoughCapacity::spec_throw(old(self)@.len() as usize, pos)) && final(self)@ == old(
                self,
            )@,
            old(self)@.len() + other@.len() > CAPACITY ==> r == Err::<(), _>(
                NotEnoughCapacity::spec_throw(CAPACITY, (old(self)@.len() + other@.len()) as usize),
            ) && final(self)@ == old(self)@,
    {
        proof { self.lemma_storage(); other.lemma_storage(); }
        let total_len = self.len + other.len;
        if total_len > CAPACITY {
            Err(NotEnoughCapacity::throw(CAPACITY, total_len))
        } else if pos >= self.len {
            Err(NotEnoughCapacity::from(InvalidIndex::throw(self.len, pos)))
        } else {
            self.insert_bytes(other.arr.as_slice(), other.len, pos);
            proof { assert(other.arr@.take(other.len as int) =~= other@); }
            Ok(())
        }
    }

    /// Writes the UTF-8 encoding of `c` at `pos`, moving what stood from `pos`
    /// on to the right. Fails, leaving the buffer as it was, when it does not
    /// fit, or, with the length and `pos` in the error, when `pos` is not
    /// inside the content.
    pub fn insert_ch(&mut self, c: char, pos: usize) -> (r: NecResult)
        requires
            old(self).wf(),
            old(self)@.len() + encode_utf8(seq![c]).len() <= usize::MAX,
        ensures
            final(self).wf(),
            old(self)@.len() + encode_utf8(seq![c]).len() <= CAPACITY && pos < old(self)@.len()
                ==> r is Ok && final(self)@ == old(self)@.take(pos as int) + encode_utf8(seq![c])
                + old(self)@.skip(pos as int),
            old(self)@.len() + encode_utf8(seq![c]).len() <= CAPACITY && pos >= old(self)@.len()
                ==> r == Err::<(), _>(
                NotEnoughCapacity::spec_throw(old(self)@.len() as usize, pos),
            ) && final(self)@ == old(self)@,
            old(self)@.len() + encode_utf8(seq![c]).len() > CAPACITY ==> r == Err::<(), _>(
                NotEnoughCapacity::spec_throw(
                    CAPACITY,
                    (old(self)@.len() + encode_utf8(seq![c]).len()) as usize,
                ),
            ) && final(self)@ == old(self)@,
    {
        proof { self.lemma_storage(); }
        let bytes = char_bytes(c);
        if bytes.len() <= CAPACITY - self.len {
            if pos < self.len {
                self.insert_bytes(bytes.as_slice(), bytes.len(), pos);
                proof { assert(bytes@.take(bytes@.len() as int) =~= bytes@); }
                Ok(())
            } else {
                Err(NotEnoughCapacity::from(InvalidIndex::throw(self.len, pos)))
            }
        } else {
            Err(NotEnoughCapacity::throw(CAPACITY, self.len + bytes.len()))
        }
    }

    /// Reverses the order of the content's bytes.
    pub fn reverse(&mut self)
        requires
            old(self).wf(),
        ensures
            final(self).wf(),
            final(self)@ == old(self)@.reverse(),
    {
        proof { self.lemma_storage(); }
        let n = self.len;
        if n == 0 {
            proof { assert(old(self)@.reverse() =~= old(self)@); }
            return;
        }
        let mid = n / 2;
        let mut lo: usize = 0;
        let mut hi: usize = n - 1;
        while lo < mid
            invariant
                n == old(self).len,
                old(self).wf(),
                0 < n <= CAPACITY,
                mid == n / 2,
                lo <= mid,
                hi == n - 1 - lo,
                self.len == n,
                self.arr@.len() == CAPACITY,
                forall|t: int| 0 <= t < lo ==> self.arr@[t] == old(self).arr@[n - 1 - t],
                forall|t: int| hi < t < n ==> self.arr@[t] == old(self).arr@[n - 1 - t],
                forall|t: int| lo <= t <= hi ==> self.arr@[t] == old(self).arr@[t],
                forall|t: int| n <= t < CAPACITY ==> self.arr@[t] == old(self).arr@[t],
            decreases mid - lo,
        {
            let temp = self.arr[lo];
            self.arr[lo] = self.arr[hi];
            self.arr[hi] = temp;
            lo = lo + 1;
            hi = hi - 1;
        }
        proof { assert(self@ =~= old(self)@.reverse()); }
    }

    /// The bytes at `j - 1` and `j` stand in the order `desc` asks for.
    fn ordered_at(&self, j: usize, desc: bool) -> (r: bool)
        requires
            0 < j < self.arr@.len(),
        ensures
            r == in_order(self.arr@[j - 1], self.arr@[j as int], desc),
    {
        if desc {
            self.arr[j - 1] >= self.arr[j]
        } else {
            self.arr[j - 1] <= self.arr[j]
        }
    }

    /// Sorts the content in place by insertion with neighbour exchanges,
    /// ascending or, when `desc`, descending.
    fn sort_bytes(&mut self, desc: bool)
        requires
            old(self).wf(),
        ensures
            final(self).wf(),
            is_sorted(final(self)@, desc),
            final(self)@.to_multiset() == old(self)@.to_multiset(),
    {
        proof { self.lemma_storage(); }
        let n = self.len;
        if n == 0 {
            return;
        }
        let mut i: usize = 1;
        while i < n
            invariant
                n == old(self).len,
                old(self).wf(),
                0 < n <= CAPACITY,
                1 <= i <= n,
                self.len == n,
                self.arr@.len() == CAPACITY,
                forall|a: int, b: int|
                    0 <= a < b < i
                        ==> in_order(#[trigger] self.arr@[a], #[trigger] self.arr@[b], desc),
                self.arr@.take(n as int).to_multiset() == old(self)@.to_multiset(),
                forall|t: int| n <= t < CAPACITY ==> self.arr@[t] == 0u8,
            decreases n - i,
        {
            let mut j: usize = i;
            while j > 0 && !self.ordered_at(j, desc)
                invariant
                    n == old(self).len,
                    0 < n <= CAPACITY,
                    1 <= i < n,
                    j <= i,
                    self.len == n,
                    self.arr@.len() == CAPACITY,
                    forall|a: int, b: int|
                        0 <= a < b <= i && a != j && b != j ==> in_order(
                            #[trigger] self.arr@[a],
                            #[trigger] self.arr@[b],
                            desc,
                        ),
                    forall|b: int|
                        j < b <= i ==> in_order(self.arr@[j as int], #[trigger] self.arr@[b], desc)
                            && self.arr@[j as int] != self.arr@[b],
                    self.arr@.take(n as int).to_multiset() == old(self)@.to_multiset(),
                    forall|t: int| n <= t < CAPACITY ==> self.arr@[t] == 0u8,
                decreases j,
            {
                proof { lemma_swap_multiset(self.arr@.take(n as int), j - 1); }
                let ghost before = self.arr@;
                let temp = self.arr[j - 1];
                self.arr[j - 1] = self.arr[j];
                self.arr[j] = temp;
                proof {
                    assert(self.arr@.take(n as int) =~= before.take(n as int).update(
                        j - 1,
                        before[j as int],
                    ).update(j as int, before[j - 1]));
                }
                j = j - 1;
            }
            i = i + 1;
        }
        proof { assert(self.arr@.take(n as int) =~= self@); }
    }

    /// Sorts the content in ascending byte order.
    pub fn sort(&mut self)
        requires
            old(self).wf(),
        ensures
            final(self).wf(),
            is_sorted(final(self)@, false),
            final(self)@.to_multiset() == old(self)@.to_multiset(),
    {
        self.sort_bytes(false);
    }

    /// Sorts the content in descending byte order.
    pub fn sort_desc(&mut self)
        requires
            old(self).wf(),
        ensures
            final(self).wf(),
            is_sorted(final(self)@, true),
            final(self)@.to_multiset() == old(self)@.to_multiset(),
    {
        self.sort_bytes(true);
    }

    /// Removes leading spaces (byte 32), one at a time, as long as more than
    /// one byte is left.
    pub fn ltrim(&mut self)
        requires
            old(self).wf(),
        ensures
            final(self).wf(),
            final(self)@ == ltrim_spaces(old(self)@),
    {
        proof { self.lemma_storage(); }
        while self.len > 1 && self.arr[0] == 32u8
            invariant
                self.wf(),
                ltrim_spaces(self@) == ltrim_spaces(old(self)@),
            decreases self.len,
        {
            proof { self.lemma_storage(); }
            let ghost before = self@;
            let _ = self.lshift(0);
            proof {
                assert(before.remove(0) =~= before.drop_first());
                self.lemma_storage();
            }
        }
        proof { self.lemma_storage(); }
    }

    /// Removes trailing spaces (byte 32) as long as more than one byte is
    /// left.
    pub fn rtrim(&mut self)
        requires
            old(self).wf(),
        ensures
            final(self).wf(),
            final(self)@ == rtrim_spaces(old(self)@),
    {
        proof { self.lemma_storage(); }
        while self.len > 1 && self.arr[self.len - 1] == 32u8
            invariant
                self.wf(),
                rtrim_spaces(self@) == rtrim_spaces(old(self)@),
            decreases self.len,
        {
            proof { self.lemma_storage(); }
            let ghost before = self@;
            self.arr[self.len - 1] = 0u8;
            self.len = self.len - 1;
            proof { assert(self@ =~= before.drop_last()); }
        }
        proof { self.lemma_storage(); }
    }

    /// Removes leading, then trailing spaces, keeping at least one byte.
    pub fn trim(&mut self)
        requires
            old(self).wf(),
        ensures
            final(self).wf(),
            final(self)@ == rtrim_spaces(ltrim_spaces(old(self)@)),
    {
        self.ltrim();
        self.rtrim();
    }

    /// Puts the ASCII letters of the content in lower case.
    pub fn lower(&mut self)
        requires
            old(self).wf(),
        ensures
            final(self).wf(),
            final(self)@ == lower_all(old(self)@),
    {
        proof { self.lemma_storage(); }
        let n = self.len;
        let mut i: usize = 0;
        while i < n
            invariant
                n == old(self).len,
                old(self).wf(),
                i <= n <= CAPACITY,
                self.len == n,
                self.arr@.len() == CAPACITY,
                forall|t: int| 0 <= t < i ==> self.arr@[t] == lower_byte(old(self).arr@[t]),
                forall|t: int| i <= t < CAPACITY ==> self.arr@[t] == old(self).arr@[t],
            decreases n - i,
        {
            let c = self.arr[i];
            if 65 <= c && c <= 90 {
                self.arr[i] = c + 32;
            }
            i = i + 1;
        }
        proof { assert(self@ =~= lower_all(old(self)@)); }
    }

    /// Puts the ASCII letters of the content in upper case.
    pub fn upper(&mut self)
        requires
            old(self).wf(),
        ensures
            final(self).wf(),
            final(self)@ == upper_all(old(self)@),
    {
        proof { self.lemma_storage(); }
        let n = self.len;
        let mut i: usize = 0;
        while i < n
            invariant
                n == old(self).len,
                old(self).wf(),
                i <= n <= CAPACITY,
                self.len == n,
                self.arr@.len() == CAPACITY,
                forall|t: int| 0 <= t < i ==> self.arr@[t] == upper_byte(old(self).arr@[t]),
                forall|t: int| i <= t < CAPACITY ==> self.arr@[t] == old(self).arr@[t],
            decreases n - i,
        {
            let c = self.arr[i];
            if 97 <= c && c <= 122 {
                self.arr[i] = c - 32;
            }
            i = i + 1;
        }
        proof { assert(self@ =~= upper_all(old(self)@)); }
    }

    /// Puts the content in lower case, then its first byte, if it is an ASCII
    /// letter, in upper case.
    pub fn title(&mut self)
        requires
            old(self).wf(),
        ensures
            final(self).wf(),
            final(self)@ == title_case(old(self)@),
    {
        self.lower();
        proof { self.lemma_storage(); }
        if self.len > 0 {
            let c = self.arr[0];
            if 97 <= c && c <= 122 {
                self.arr[0] = c - 32;
            }
        }
        proof { assert(self@ =~= title_case(old(self)@)); }
    }

    /// Puts the content in lower case, then the first byte and every byte
    /// that follows a space, where they are ASCII letters, in upper case.
    pub fn proper(&mut self)
        requires
            old(self).wf(),
        ensures
            final(self).wf(),
            final(self)@ == proper_case(old(self)@),
    {
        self.title();
        proof { self.lemma_storage(); }
        let n = self.len;
        let mut i: usize = 1;
        while i < n
            invariant
                n == old(self)@.len(),
                old(self).wf(),
                n <= CAPACITY,
                1 <= i,
                self.len == n,
                self.arr@.len() == CAPACITY,
                forall|t: int| 0 <= t < i && t < n ==> self.arr@[t] == proper_case(old(self)@)[t],
                forall|t: int| i <= t < n ==> self.arr@[t] == lower_byte(old(self)@[t]),
                forall|t: int| n <= t < CAPACITY ==> self.arr@[t] == 0u8,
            decreases n - i,
        {
            if self.arr[i - 1] == 32u8 {
                let c = self.arr[i];
                if 97 <= c && c <= 122 {
                    self.arr[i] = c - 32;
                }
            }
            i = i + 1;
        }
        proof { assert(self@ =~= proper_case(old(self)@)); }
    }

    /// The content as text; bytes that are not valid UTF-8 become U+FFFD.
    pub fn to_string(&self) -> (r: String)
        requires
            self.wf(),
        ensures
            r@ == lossy_text(self@),
            valid_utf8(self@) ==> r@ == decode_utf8(self@),
    {
        proof { self.lemma_storage(); }
        text_of(&self.arr.as_slice()[0..self.len])
    }

    /// Replaces the storage by `arr` with the length given by the caller; the
    /// bytes of `arr` past `len` are zeroed. Fails, leaving the buffer as it
    /// was, when `len` exceeds the capacity.
    pub fn replace_storage(&mut self, arr: [u8; CAPACITY], len: usize) -> (r: IidxResult)
        requires
            old(self).wf(),
        ensures
            final(self).wf(),
            len <= CAPACITY ==> r is Ok && final(self)@ == arr@.take(len as int),
            len > CAPACITY ==> r == Err::<(), _>(InvalidIndex::spec_throw(CAPACITY, len))
                && final(self)@ == old(self)@,
    {
        if len > CAPACITY {
            return Err(InvalidIndex::throw(CAPACITY, len));
        }
        let mut a = arr;
        let mut i: usize = len;
        while i < CAPACITY
            invariant
                len <= i <= CAPACITY,
                a@.len() == CAPACITY,
                forall|t: int| 0 <= t < len ==> a@[t] == arr@[t],
                forall|t: int| len <= t < i ==> a@[t] == 0u8,
            decreases CAPACITY - i,
        {
            a[i] = 0u8;
            i = i + 1;
        }
        self.arr = a;
        self.len = len;
        proof { assert(self@ =~= arr@.take(len as int)); }
        Ok(())
    }

    /// The storage bytes from `start` up to `end`, without regard to the
    /// content's length.
    pub fn get_slice_unchecked(&self, start: usize, end: usize) -> (r: &[u8])
        requires
            self.wf(),
            start <= end <= CAPACITY,
        ensures
            r@ == self.storage().subrange(start as int, end as int),
    {
        proof { self.lemma_storage(); }
        &self.arr.as_slice()[start..end]
    }

    /// The content bytes from `start` up to `end`. Fails when `start + 1` is
    /// not below the length, `end` is past the length, or `start > end`; the
    /// error holds `start` and `end`.
    pub fn get_slice(&self, start: usize, end: usize) -> (r: Result<&[u8], InvalidIndex>)
        requires
            self.wf(),
        ensures
            start + 1 >= self@.len() || end > self@.len() || start > end ==> r == Err::<&[u8], _>(
                InvalidIndex::spec_throw(start, end),
            ),
            !(start + 1 >= self@.len() || end > self@.len() || start > end) ==> r is Ok
                && r->Ok_0@ == self@.subrange(start as int, end as int),
    {
        proof { self.lemma_storage(); }
        if start >= self.len || start + 1 >= self.len || end > self.len || start > end {
            Err(InvalidIndex::throw(start, end))
        } else {
            Ok(&self.arr.as_slice()[start..end])
        }
    }

    /// The delimiter `d` matches the content at `i` under `rule`.
    fn hit_at(&self, rule: SplitRule, d: &[u8], l: u8, r: u8, i: usize) -> (res: bool)
        requires
            self.wf(),
            i <= self@.len(),
        ensures
            res == hit(self@, rule, d@, l, r, i as int),
    {
        proof { self.lemma_storage(); }
        let n = self.len;
        match rule {
            SplitRule::Text | SplitRule::TextUnless => {
                if d.len() > n - i {
                    return false;
                }
                let mut k: usize = 0;
                while k < d.len()
                    invariant
                        self.wf(),
                        n == self.len,
                        i + d@.len() <= n,
                        k <= d@.len(),
                        forall|t: int| 0 <= t < k ==> self@[i + t] == d@[t],
                    decreases d@.len() - k,
                {
                    if self.arr[i + k] != d[k] {
                        proof { assert(self@.subrange(i as int, i
                            + d@.len())[k as int] != d@[k as int]); }
                        return false;
                    }
                    k = k + 1;
                }
                proof { assert(self@.subrange(i as int, i + d@.len()) =~= d@); }
                match rule {
                    SplitRule::TextUnless => i + d.len() == n || self.arr[i + d.len()] != r,
                    _ => true,
                }
            },
            SplitRule::Between => {
                d.len() == 1 && 1 <= i && i < n && i + 1 < n && self.arr[i] == d[0] && self.arr[i - 1] == l
                    && self.arr[i + 1] == r
            },
            _ => d.len() == 1 && i < n && self.arr[i] == d[0],
        }
    }

    /// The content cut into segments under `rule`: `d` is the delimiter, `l`
    /// and `r` the sentinel bytes of the rules that use them.
    pub fn split_bytes(&self, rule: SplitRule, d: &[u8], l: u8, r: u8) -> (v: Vec<Vec<u8>>)
        requires
            self.wf(),
        ensures
            v@.len() == segments(self@, rule, d@, l, r).len(),
            forall|k: int|
                0 <= k < v@.len() ==> #[trigger] v@[k]@ == segments(self@, rule, d@, l, r)[k],
    {
        proof { self.lemma_storage(); }
        let n = self.len;
        let mut v: Vec<Vec<u8>> = Vec::new();
        let mut start: usize = 0;
        let mut i: usize = 0;
        let ghost mut done: Seq<Seq<u8>> = Seq::empty();
        while i < n
            invariant
                self.wf(),
                n == self@.len(),
                start <= i <= n,
                done + scan(self@, rule, d@, l, r, start as int, i as int) == segments(
                    self@,
                    rule,
                    d@,
                    l,
                    r,
                ),
                v@.len() == done.len(),
                forall|k: int| 0 <= k < v@.len() ==> #[trigger] v@[k]@ == done[k],
            decreases n - i,
        {
            if self.hit_at(rule, d, l, r, i) {
                let end: usize = match rule {
                    SplitRule::KeepLeft => i + 1,
                    _ => i,
                };
                let seg = slice_to_vec(&self.arr.as_slice()[start..end]);
                proof {
                    assert(self.arr@.subrange(start as int, end as int) =~= self@.subrange(
                        start as int,
                        end as int,
                    ));
                    let tail = scan(
                        self@,
                        rule,
                        d@,
                        l,
                        r,
                        restart(rule, d@, i as int),
                        resume(rule, d@, i as int),
                    );
                    assert(done.push(self@.subrange(start as int, end as int)) + tail =~= done
                        + scan(self@, rule, d@, l, r, start as int, i as int));
                    done = done.push(self@.subrange(start as int, end as int));
                }
                v.push(seg);
                match rule {
                    SplitRule::KeepRight => {
                        start = i;
                        i = i + 1;
                    },
                    SplitRule::Text | SplitRule::TextUnless => {
                        start = i + d.len();
                        i = if d.len() > 0 {
                            i + d.len()
                        } else {
                            i + 1
                        };
                    },
                    _ => {
                        start = i + 1;
                        i = i + 1;
                    },
                }
            } else {
                i = i + 1;
            }
        }
        let ghost mut j: int = n as int;
        if self.hit_at(rule, d, l, r, n) {
            let seg = slice_to_vec(&self.arr.as_slice()[start..n]);
            proof {
                assert(self.arr@.subrange(start as int, n as int) =~= self@.subrange(
                    start as int,
                    n as int,
                ));
                assert(cut(rule, n as int) == n);
                assert(restart(rule, d@, n as int) == n);
                assert(resume(rule, d@, n as int) == n + 1);
                assert(done.push(self@.subrange(start as int, n as int)) + scan(
                    self@,
                    rule,
                    d@,
                    l,
                    r,
                    n as int,
                    n + 1,
                ) =~= done + scan(self@, rule, d@, l, r, start as int, n as int));
                done = done.push(self@.subrange(start as int, n as int));
                j = n + 1;
            }
            v.push(seg);
            start = n;
        }
        let last = slice_to_vec(&self.arr.as_slice()[start..n]);
        proof {
            assert(self.arr@.subrange(start as int, n as int) =~= self@.subrange(
                start as int,
                n as int,
            ));
            assert(done.push(self@.subrange(start as int, n as int)) =~= done + scan(
                self@,
                rule,
                d@,
                l,
                r,
                start as int,
                j,
            ));
            done = done.push(self@.subrange(start as int, n as int));
        }
        v.push(last);
        v
    }

    /// Splits the content at each byte `c as u8`; each delimiter starts the
    /// segment after it. The segment after the last delimiter is always there.
    pub fn to_vecir(&self, c: char) -> (v: Vec<String>)
        requires
            self.wf(),
        ensures
            v@.len() == segments(self@, SplitRule::KeepRight, seq![c as u8], 0, 0).len(),
            forall|k: int|
                0 <= k < v@.len() ==> #[trigger] v@[k]@ == lossy_text(
                    segments(self@, SplitRule::KeepRight, seq![c as u8], 0, 0)[k],
                ),
            forall|k: int|
                0 <= k < v@.len() && valid_utf8(segments(self@, SplitRule::KeepRight, seq![c as u8], 0, 0)[k]) ==> #[trigger] v@[k]@
                    == decode_utf8(segments(self@, SplitRule::KeepRight, seq![c as u8], 0, 0)[k]),
    {
        let d = [c as u8];
        proof { assert(d@ =~= seq![c as u8]); }
        decode_all(self.split_bytes(SplitRule::KeepRight, d.as_slice(), 0, 0))
    }

    /// Splits the content at each byte `c as u8`; each delimiter ends the
    /// segment before it. The segment after the last delimiter is always there.
    pub fn to_vecil(&self, c: char) -> (v: Vec<String>)
        requires
            self.wf(),
        ensures
            v@.len() == segments(self@, SplitRule::KeepLeft, seq![c as u8], 0, 0).len(),
            forall|k: int|
                0 <= k < v@.len() ==> #[trigger] v@[k]@ == lossy_text(
                    segments(self@, SplitRule::KeepLeft, seq![c as u8], 0, 0)[k],
                ),
            forall|k: int|
                0 <= k < v@.len() && valid_utf8(segments(self@, SplitRule::KeepLeft, seq![c as u8], 0, 0)[k]) ==> #[trigger] v@[k]@
                    == decode_utf8(segments(self@, SplitRule::KeepLeft, seq![c as u8], 0, 0)[k]),
    {
        let d = [c as u8];
        proof { assert(d@ =~= seq![c as u8]); }
        decode_all(self.split_bytes(SplitRule::KeepLeft, d.as_slice(), 0, 0))
    }

    /// Splits the content at each byte `c as u8`, dropping the delimiters.
    /// The segment after the last delimiter is always there.
    pub fn to_vec(&self, c: char) -> (v: Vec<String>)
        requires
            self.wf(),
        ensures
            v@.len() == segments(self@, SplitRule::Drop, seq![c as u8], 0, 0).len(),
            forall|k: int|
                0 <= k < v@.len() ==> #[trigger] v@[k]@ == lossy_text(
                    segments(self@, SplitRule::Drop, seq![c as u8], 0, 0)[k],
                ),
            forall|k: int|
                0 <= k < v@.len() && valid_utf8(segments(self@, SplitRule::Drop, seq![c as u8], 0, 0)[k]) ==> #[trigger] v@[k]@
                    == decode_utf8(segments(self@, SplitRule::Drop, seq![c as u8], 0, 0)[k]),
    {
        let d = [c as u8];
        proof { assert(d@ =~= seq![c as u8]); }
        decode_all(self.split_bytes(SplitRule::Drop, d.as_slice(), 0, 0))
    }

    /// Splits the content at each match of the UTF-8 bytes of `s`, scanning
    /// from the left and going on behind each match; the matches are dropped.
    /// An empty `s` matches before every byte and at the end, so each byte
    /// becomes a segment of its own between two empty ones.
    pub fn to_vec2(&self, s: &str) -> (v: Vec<String>)
        requires
            self.wf(),
        ensures
            v@.len() == segments(self@, SplitRule::Text, s.spec_bytes(), 0, 0).len(),
            forall|k: int|
                0 <= k < v@.len() ==> #[trigger] v@[k]@ == lossy_text(
                    segments(self@, SplitRule::Text, s.spec_bytes(), 0, 0)[k],
                ),
            forall|k: int|
                0 <= k < v@.len() && valid_utf8(segments(self@, SplitRule::Text, s.spec_bytes(), 0, 0)[k]) ==> #[trigger] v@[k]@
                    == decode_utf8(segments(self@, SplitRule::Text, s.spec_bytes(), 0, 0)[k]),
    {
        decode_all(self.split_bytes(SplitRule::Text, s.as_bytes(), 0, 0))
    }

    /// As `to_vec2`, but a match directly followed by the byte `r as u8` is
    /// no delimiter.
    pub fn to_vecr(&self, s: &str, r: char) -> (v: Vec<String>)
        requires
            self.wf(),
        ensures
            v@.len() == segments(self@, SplitRule::TextUnless, s.spec_bytes(), 0, r as u8).len(),
            forall|k: int|
                0 <= k < v@.len() ==> #[trigger] v@[k]@ == lossy_text(
                    segments(self@, SplitRule::TextUnless, s.spec_bytes(), 0, r as u8)[k],
                ),
            forall|k: int|
                0 <= k < v@.len() && valid_utf8(segments(self@, SplitRule::TextUnless, s.spec_bytes(), 0, r as u8)[k]) ==> #[trigger] v@[k]@
                    == decode_utf8(segments(self@, SplitRule::TextUnless, s.spec_bytes(), 0, r as u8)[k]),
    {
        decode_all(self.split_bytes(SplitRule::TextUnless, s.as_bytes(), 0, r as u8))
    }

    /// Splits the content at each byte `c as u8` that has the byte
    /// `lchar as u8` just before it and `rchar as u8` just after it; the
    /// delimiters are dropped.
    pub fn to_veclr(&self, c: char, lchar: char, rchar: char) -> (v: Vec<String>)
        requires
            self.wf(),
        ensures
            v@.len() == segments(
                self@,
                SplitRule::Between,
                seq![c as u8],
                lchar as u8,
                rchar as u8,
            ).len(),
            forall|k: int|
                0 <= k < v@.len() ==> #[trigger] v@[k]@ == lossy_text(
                    segments(self@, SplitRule::Between, seq![c as u8], lchar as u8, rchar as u8)[k],
                ),
            forall|k: int|
                0 <= k < v@.len() && valid_utf8(segments(self@, SplitRule::Between, seq![c as u8], lchar as u8, rchar as u8)[k]) ==> #[trigger] v@[k]@
                    == decode_utf8(segments(self@, SplitRule::Between, seq![c as u8], lchar as u8, rchar as u8)[k]),
    {
        let d = [c as u8];
        proof { assert(d@ =~= seq![c as u8]); }
        decode_all(self.split_bytes(SplitRule::Between, d.as_slice(), lchar as u8, rchar as u8))
    }

    /// Orders two buffers by their checksums; unequal buffers may compare
    /// equal this way.
    pub fn by_checksum(&self, other: &Self) -> (r: std::cmp::Ordering)
        requires
            self.wf(),
            other.wf(),
            byte_sum(self@) <= usize::MAX,
            byte_sum(other@) <= usize::MAX,
        ensures
            r == (if byte_sum(self@) < byte_sum(other@) {
                std::cmp::Ordering::Less
            } else if byte_sum(self@) == byte_sum(other@) {
                std::cmp::Ordering::Equal
            } else {
                std::cmp::Ordering::Greater
            }),
    {
        let a = self.checksum();
        let b = other.checksum();
        if a < b {
            std::cmp::Ordering::Less
        } else if a == b {
            std::cmp::Ordering::Equal
        } else {
            std::cmp::Ordering::Greater
        }
    }

    /// Sum of the two checksums.
    pub fn checksum_add(&self, other: &Self) -> (r: usize)
        requires
            self.wf(),
            other.wf(),
            byte_sum(self@) + byte_sum(other@) <= usize::MAX,
        ensures
            r == byte_sum(self@) + byte_sum(other@),
    {
        self.checksum() + other.checksum()
    }

    /// This checksum less the other, which must not be larger.
    pub fn checksum_sub(&self, other: &Self) -> (r: usize)
        requires
            self.wf(),
            other.wf(),
            byte_sum(self@) <= usize::MAX,
            byte_sum(other@) <= byte_sum(self@),
        ensures
            r == byte_sum(self@) - byte_sum(other@),
    {
        self.checksum() - other.checksum()
    }

    /// Product of the two checksums.
    pub fn checksum_mul(&self, other: &Self) -> (r: usize)
        requires
            self.wf(),
            other.wf(),
            byte_sum(self@) <= usize::MAX,
            byte_sum(other@) <= usize::MAX,
            byte_sum(self@) * byte_sum(other@) <= usize::MAX,
        ensures
            r == byte_sum(self@) * byte_sum(other@),
    {
        self.checksum() * other.checksum()
    }

    /// Same length and same storage bytes.
    pub closed spec fn same_bytes(&self, other: &Self) -> bool {
        self.len == other.len && self.arr@ == other.arr@
    }

    /// For well-formed buffers `==` is equality of the content.
    pub proof fn lemma_eq_is_content(&self, other: &Self)
        requires
            self.wf(),
            other.wf(),
        ensures
            self.same_bytes(other) <==> self@ == other@,
    {
        self.lemma_storage();
        other.lemma_storage();
        if self@ == other@ {
            assert(self.arr@ =~= other.arr@);
        }
    }
}

/// Two buffers are equal when their lengths and their bytes agree.
impl<const CAPACITY: usize> PartialEq for BFRDYN<CAPACITY> {
    fn eq(&self, other: &Self) -> (r: bool) {
        let r = crate::helper::eq(&self.len, self.arr.as_slice(), &other.len, other.arr.as_slice());
        proof { assert(other.arr@.take(self.arr@.len() as int) =~= other.arr@); }
        r
    }
}

impl<const CAPACITY: usize> vstd::std_specs::cmp::PartialEqSpecImpl for BFRDYN<CAPACITY> {
    open spec fn obeys_eq_spec() -> bool {
        true
    }

    open spec fn eq_spec(&self, other: &Self) -> bool {
        self.same_bytes(other)
    }
}

} // verus!
