//! `CBfr`: a buffer over a byte slice that the caller lends, with the same
//! editing operations. Operations that need room or a position take them as
//! preconditions.
use vstd::prelude::*;
use vstd::string::StringSliceAdditionalSpecFns;
use vstd::utf8::{decode_utf8, encode_utf8, valid_utf8};
use crate::errors::NotEnoughCapacity;
use crate::model::{
    count_nonzero, in_order, is_sorted, lemma_count_nonzero_prefix, lemma_squeeze_len,
    lemma_swap_multiset, ltrim_spaces, rtrim_spaces, squeeze_spaces, zeros,
};
use crate::text::{char_bytes, push_char, text_of, lossy_text};

verus! {

/// A buffer whose storage is a borrowed byte slice; the first `len` bytes
/// are the content.
pub struct CBfr<'a> {
    bfr: &'a mut [u8],
    len: usize,
}

impl<'a> View for CBfr<'a> {
    type V = Seq<u8>;

    /// The content: the first `len` bytes of the slice.
    closed spec fn view(&self) -> Seq<u8> {
        self.bfr@.take(self.len as int)
    }
}

/// `n` copies of the byte `b`.
pub open spec fn repeat(b: u8, n: nat) -> Seq<u8> {
    Seq::new(n, |i: int| b)
}

impl<'a> CBfr<'a> {
    /// The length stays within the slice.
    pub closed spec fn wf(&self) -> bool {
        self.len <= self.bfr@.len()
    }

    /// The whole borrowed slice.
    pub closed spec fn store(&self) -> Seq<u8> {
        self.bfr@
    }

    /// The slice after an operation on `before`: the new content, zeros
    /// where content was given up, and the bytes past the old and the new
    /// content as they were.
    pub open spec fn rest_kept(&self, before: Self) -> bool {
        let k = if before@.len() > self@.len() {
            before@.len()
        } else {
            self@.len()
        };
        &&& self.store().len() == before.store().len()
        &&& self.store() == self@ + zeros((k - self@.len()) as nat) + before.store().skip(k as int)
    }

    /// A buffer over `buffer`, with empty content.
    pub fn new(buffer: &'a mut [u8]) -> (r: Self)
        ensures
            r.wf(),
            r@ == Seq::<u8>::empty(),
            r.store() == old(buffer)@,
    {
        let r = CBfr { bfr: buffer, len: 0 };
        proof { assert(r@ =~= Seq::<u8>::empty()); }
        r
    }

    /// A buffer over `buffer` holding the UTF-8 bytes of `text` at its front;
    /// fails when they do not fit in `buffer`.
    pub fn from_text(buffer: &'a mut [u8], text: &str) -> (r: Result<Self, NotEnoughCapacity>)
        ensures
            text.spec_bytes().len() <= old(buffer)@.len() ==> r is Ok && r->Ok_0.wf()
                && r->Ok_0@ == text.spec_bytes() && r->Ok_0.store() == text.spec_bytes() + old(
                buffer,
            )@.skip(text.spec_bytes().len() as int),
            text.spec_bytes().len() > old(buffer)@.len() ==> r == Err::<Self, _>(
                NotEnoughCapacity::spec_throw(old(buffer)@.len() as usize, text.len()),
            ),
    {
        let bytes = text.as_bytes();
        if bytes.len() <= buffer.len() {
            let mut r = CBfr::new(buffer);
            r.insert_bytes(0, bytes);
            proof {
                assert(r@ =~= bytes@);
                assert(r.store() =~= bytes@ + old(buffer)@.skip(bytes@.len() as int));
            }
            Ok(r)
        } else {
            Err(NotEnoughCapacity::throw(buffer.len(), bytes.len()))
        }
    }

    /// A buffer over `buffer` whose length is the number of non-zero bytes
    /// in it.
    pub fn clone(buffer: &'a mut [u8]) -> (r: Self)
        ensures
            r.wf(),
            r.store() == old(buffer)@,
            r@ == old(buffer)@.take(count_nonzero(old(buffer)@) as int),
    {
        let mut len: usize = 0;
        let mut i: usize = 0;
        while i < buffer.len()
            invariant
                buffer@ == old(buffer)@,
                i <= buffer@.len(),
                len == count_nonzero(buffer@.take(i as int)),
            decreases buffer@.len() - i,
        {
            proof {
                assert(buffer@.take(i + 1).drop_last() =~= buffer@.take(i as int));
                lemma_count_nonzero_prefix(buffer@.take(i + 1), 0);
            }
            if buffer[i] != 0 {
                len = len + 1;
            }
            i = i + 1;
        }
        proof {
            assert(buffer@.take(i as int) =~= buffer@);
            lemma_count_nonzero_prefix(buffer@, 0);
        }
        CBfr { bfr: buffer, len }
    }

    /// Number of content bytes.
    pub fn len(&self) -> (r: usize)
        requires
            self.wf(),
        ensures
            r == self@.len(),
    {
        self.len
    }

    /// The content fills the whole slice.
    pub fn is_full(&self) -> (r: bool)
        requires
            self.wf(),
        ensures
            r == (self@.len() == self.store().len()),
    {
        self.len == self.bfr.len()
    }

    /// Room left after the content.
    pub fn available(&self) -> (r: usize)
        requires
            self.wf(),
        ensures
            r == self.store().len() - self@.len(),
    {
        self.bfr.len() - self.len
    }

    /// Length of the borrowed slice.
    pub fn cap(&self) -> (r: usize)
        ensures
            r == self.store().len(),
    {
        self.bfr.len()
    }

    /// Zeroes the whole slice and empties the content.
    pub fn clear(&mut self)
        requires
            old(self).wf(),
        ensures
            final(self).wf(),
            final(self)@ == Seq::<u8>::empty(),
            final(self).store() == zeros(old(self).store().len()),
    {
        let mut i: usize = 0;
        while i < self.bfr.len()
            invariant
                self.bfr@.len() == old(self).bfr@.len(),
                i <= self.bfr@.len(),
                forall|t: int| 0 <= t < i ==> self.bfr@[t] == 0u8,
            decreases self.bfr@.len() - i,
        {
            self.bfr[i] = 0;
            i = i + 1;
        }
        self.len = 0;
        proof {
            assert(self@ =~= Seq::<u8>::empty());
            assert(self.bfr@ =~= zeros(old(self).store().len()));
        }
    }

    /// Moves the content from `pos` on `n` places to the right; the `n`
    /// bytes from `pos` keep what they held.
    fn shift_right(&mut self, pos: usize, n: usize)
        requires
            old(self).wf(),
            pos <= old(self).len,
            old(self).len + n <= old(self).bfr@.len(),
        ensures
            final(self).wf(),
            final(self).len == old(self).len + n,
            final(self).bfr@.len() == old(self).bfr@.len(),
            forall|t: int| 0 <= t < pos + n ==> final(self).bfr@[t] == old(self).bfr@[t],
            forall|t: int|
                pos + n <= t < old(self).len + n ==> final(self).bfr@[t] == old(self).bfr@[t - n],
            forall|t: int|
                old(self).len + n <= t < old(self).bfr@.len() ==> final(self).bfr@[t] == old(
                    self,
                ).bfr@[t],
    {
        let len = self.len;
        let cap = self.bfr.len();
        let mut j: usize = len;
        while j > pos
            invariant
                cap == self.bfr@.len(),
                len == old(self).len,
                len + n <= old(self).bfr@.len(),
                pos <= j <= len,
                self.len == len,
                self.bfr@.len() == old(self).bfr@.len(),
                forall|t: int| 0 <= t < j + n ==> self.bfr@[t] == old(self).bfr@[t],
                forall|t: int| j + n <= t < len + n ==> self.bfr@[t] == old(self).bfr@[t - n],
                forall|t: int| len + n <= t < self.bfr@.len() ==> self.bfr@[t] == old(self).bfr@[t],
            decreases j,
        {
            j = j - 1;
            self.bfr[j + n] = self.bfr[j];
        }
        self.len = len + n;
    }

    /// Writes `b` at `pos`, inside the content.
    fn write_bytes(&mut self, pos: usize, b: &[u8])
        requires
            old(self).wf(),
            pos + b@.len() <= old(self).len,
        ensures
            final(self).wf(),
            final(self).len == old(self).len,
            final(self).bfr@ == old(self).bfr@.take(pos as int) + b@ + old(self).bfr@.skip(
                pos + b@.len(),
            ),
    {
        let mut i: usize = 0;
        while i < b.len()
            invariant
                pos + b@.len() <= self.len,
                self.len == old(self).len,
                self.bfr@.len() == old(self).bfr@.len(),
                old(self).len <= old(self).bfr@.len(),
                i <= b@.len(),
                forall|t: int| 0 <= t < pos ==> self.bfr@[t] == old(self).bfr@[t],
                forall|t: int| pos <= t < pos + i ==> self.bfr@[t] == b@[t - pos],
                forall|t: int| pos + i <= t < self.bfr@.len() ==> self.bfr@[t] == old(self).bfr@[t],
            decreases b@.len() - i,
        {
            self.bfr[pos + i] = b[i];
            i = i + 1;
        }
        proof {
            assert(self.bfr@ =~= old(self).bfr@.take(pos as int) + b@ + old(self).bfr@.skip(
                pos + b@.len(),
            ));
        }
    }

    /// Writes `b` at `pos`, moving the content from `pos` on to the right.
    fn insert_bytes(&mut self, pos: usize, b: &[u8])
        requires
            old(self).wf(),
            pos <= old(self)@.len(),
            old(self)@.len() + b@.len() <= old(self).store().len(),
        ensures
            final(self).wf(),
            final(self)@ == old(self)@.take(pos as int) + b@ + old(self)@.skip(pos as int),
            final(self).rest_kept(*old(self)),
    {
        self.shift_right(pos, b.len());
        self.write_bytes(pos, b);
        proof {
            assert(self@ =~= old(self)@.take(pos as int) + b@ + old(self)@.skip(pos as int));
            let k = self@.len();
            assert(self.store() =~= self@ + zeros((k - self@.len()) as nat) + old(
                self,
            ).store().skip(k as int));
        }
    }

    /// Writes the UTF-8 encoding of `c` after the content; the caller
    /// guarantees the room.
    pub fn append_ch(&mut self, c: char)
        requires
            old(self).wf(),
            old(self)@.len() + encode_utf8(seq![c]).len() <= old(self).store().len(),
        ensures
            final(self).wf(),
            final(self)@ == old(self)@ + encode_utf8(seq![c]),
            final(self).rest_kept(*old(self)),
    {
        let bytes = char_bytes(c);
        let pos = self.len;
        self.insert_bytes(pos, bytes.as_slice());
        proof {
            assert(old(self)@.take(pos as int) =~= old(self)@);
            assert(old(self)@.skip(pos as int) =~= Seq::<u8>::empty());
            assert(old(self)@ + bytes@ + Seq::<u8>::empty() =~= old(self)@ + bytes@);
        }
    }

    /// Writes the content of `other` after the content; the caller
    /// guarantees the room.
    pub fn append(&mut self, other: Self)
        requires
            old(self).wf(),
            other.wf(),
            old(self)@.len() + other@.len() <= old(self).store().len(),
        ensures
            final(self).wf(),
            final(self)@ == old(self)@ + other@,
            final(self).rest_kept(*old(self)),
    {
        let pos = self.len;
        self.insert_bytes(pos, &other.bfr[0..other.len]);
        proof {
            assert(old(self)@.take(pos as int) =~= old(self)@);
            assert(old(self)@.skip(pos as int) =~= Seq::<u8>::empty());
            assert(old(self)@ + other@ + Seq::<u8>::empty() =~= old(self)@ + other@);
        }
    }

    /// Writes the UTF-8 bytes of `text` after the content; the caller
    /// guarantees the room.
    pub fn append_str(&mut self, text: &str)
        requires
            old(self).wf(),
            old(self)@.len() + text.spec_bytes().len() <= old(self).store().len(),
        ensures
            final(self).wf(),
            final(self)@ == old(self)@ + text.spec_bytes(),
            final(self).rest_kept(*old(self)),
    {
        let pos = self.len;
        self.insert_bytes(pos, text.as_bytes());
        proof {
            assert(old(self)@.take(pos as int) =~= old(self)@);
            assert(old(self)@.skip(pos as int) =~= Seq::<u8>::empty());
            assert(old(self)@ + text.spec_bytes() + Seq::<u8>::empty() =~= old(self)@
                + text.spec_bytes());
        }
    }

    /// Inserts `step` copies of the byte `fill_with as u8` at `from`, moving
    /// the content from `from` on to the right; the caller guarantees the room
    /// and that `from` is not past the content.
    pub fn rshift(&mut self, from: usize, step: usize, fill_with: char)
        requires
            old(self).wf(),
            from <= old(self)@.len(),
            old(self)@.len() + step <= old(self).store().len(),
        ensures
            final(self).wf(),
            final(self)@ == old(self)@.take(from as int) + repeat(fill_with as u8, step as nat)
                + old(self)@.skip(from as int),
            final(self).rest_kept(*old(self)),
    {
        let b = fill_with as u8;
        self.shift_right(from, step);
        let mut i: usize = 0;
        while i < step
            invariant
                self.wf(),
                self.len == old(self).len + step,
                from + step <= self.len,
                self.bfr@.len() == old(self).bfr@.len(),
                i <= step,
                forall|t: int| 0 <= t < from ==> self.bfr@[t] == old(self).bfr@[t],
                forall|t: int| from <= t < from + i ==> self.bfr@[t] == b,
                forall|t: int|
                    from + step <= t < old(self).len + step ==> self.bfr@[t] == old(self).bfr@[t
                        - step],
                forall|t: int|
                    old(self).len + step <= t < self.bfr@.len() ==> self.bfr@[t] == old(
                        self,
                    ).bfr@[t],
            decreases step - i,
        {
            self.bfr[from + i] = b;
            i = i + 1;
        }
        proof {
            assert(self@ =~= old(self)@.take(from as int) + repeat(b, step as nat) + old(
                self,
            )@.skip(from as int));
            let k = self@.len();
            assert(self.store() =~= self@ + zeros((k - self@.len()) as nat) + old(
                self,
            ).store().skip(k as int));
        }
    }

    /// Removes `step` bytes at `from`, moving the rest of the content to the
    /// left and zeroing the bytes it leaves; the caller guarantees that they
    /// lie inside the content.
    pub fn lshift(&mut self, from: usize, step: usize)
        requires
            old(self).wf(),
            from + step <= old(self)@.len(),
        ensures
            final(self).wf(),
            final(self)@ == old(self)@.take(from as int) + old(self)@.skip(from + step),
            final(self).rest_kept(*old(self)),
    {
        let len = self.len;
        let mut i: usize = from;
        while i + step < len
            invariant
                len == old(self).len,
                len <= self.bfr@.len(),
                from + step <= len,
                from <= i <= len - step,
                self.len == len,
                self.bfr@.len() == old(self).bfr@.len(),
                forall|t: int| 0 <= t < from ==> self.bfr@[t] == old(self).bfr@[t],
                forall|t: int| from <= t < i ==> self.bfr@[t] == old(self).bfr@[t + step],
                forall|t: int| i <= t < self.bfr@.len() ==> self.bfr@[t] == old(self).bfr@[t],
            decreases len - i,
        {
            self.bfr[i] = self.bfr[i + step];
            i = i + 1;
        }
        let mut j: usize = len - step;
        while j < len
            invariant
                len == old(self).len,
                len <= self.bfr@.len(),
                from + step <= len,
                len - step <= j <= len,
                self.len == len,
                self.bfr@.len() == old(self).bfr@.len(),
                forall|t: int| 0 <= t < from ==> self.bfr@[t] == old(self).bfr@[t],
                forall|t: int| from <= t < len - step ==> self.bfr@[t] == old(self).bfr@[t + step],
                forall|t: int| len - step <= t < j ==> self.bfr@[t] == 0u8,
                forall|t: int| len <= t < self.bfr@.len() ==> self.bfr@[t] == old(self).bfr@[t],
            decreases len - j,
        {
            self.bfr[j] = 0;
            j = j + 1;
        }
        self.len = len - step;
        proof {
            assert(self@ =~= old(self)@.take(from as int) + old(self)@.skip(from + step));
            assert(self.store() =~= self@ + zeros((len - self@.len()) as nat) + old(
                self,
            ).store().skip(len as int));
        }
    }

    /// Puts the UTF-8 encoding of `c` in front of the content; the caller
    /// guarantees the room.
    pub fn prepend_ch(&mut self, c: char)
        requires
            old(self).wf(),
            old(self)@.len() + encode_utf8(seq![c]).len() <= old(self).store().len(),
        ensures
            final(self).wf(),
            final(self)@ == encode_utf8(seq![c]) + old(self)@,
            final(self).rest_kept(*old(self)),
    {
        let bytes = char_bytes(c);
        self.insert_bytes(0, bytes.as_slice());
        proof { assert(old(self)@.take(0) + bytes@ + old(self)@.skip(0) =~= bytes@ + old(self)@); }
    }

    /// Puts the UTF-8 bytes of `text` in front of the content; the caller
    /// guarantees the room.
    pub fn prepend_str(&mut self, text: &str)
        requires
            old(self).wf(),
            old(self)@.len() + text.spec_bytes().len() <= old(self).store().len(),
        ensures
            final(self).wf(),
            final(self)@ == text.spec_bytes() + old(self)@,
            final(self).rest_kept(*old(self)),
    {
        self.insert_bytes(0, text.as_bytes());
        proof {
            assert(old(self)@.take(0) + text.spec_bytes() + old(self)@.skip(0) =~= text.spec_bytes()
                + old(self)@);
        }
    }

    /// Puts the content of `other` in front of the content; the caller
    /// guarantees the room.
    pub fn prepend(&mut self, other: Self)
        requires
            old(self).wf(),
            other.wf(),
            old(self)@.len() + other@.len() <= old(self).store().len(),
        ensures
            final(self).wf(),
            final(self)@ == other@ + old(self)@,
            final(self).rest_kept(*old(self)),
    {
        self.insert_bytes(0, &other.bfr[0..other.len]);
        proof { assert(old(self)@.take(0) + other@ + old(self)@.skip(0) =~= other@ + old(self)@); }
    }

    /// Removes `how_many` bytes at `at` and returns them as text, each byte
    /// read as the character of the same number; the caller guarantees that
    /// they are at least one and lie inside the content.
    pub fn take(&mut self, at: usize, how_many: usize) -> (r: String)
        requires
            old(self).wf(),
            1 <= how_many,
            at + how_many <= old(self)@.len(),
        ensures
            final(self).wf(),
            r@ == old(self)@.subrange(at as int, at + how_many).map_values(|b: u8| b as char),
            final(self)@ == old(self)@.take(at as int) + old(self)@.skip(at + how_many),
            final(self).rest_kept(*old(self)),
    {
        let mut s = String::new();
        let mut i: usize = at;
        while i < at + how_many
            invariant
                self.wf(),
                self == old(self),
                at <= i <= at + how_many,
                at + how_many <= self.len,
                s@ == self@.subrange(at as int, i as int).map_values(|b: u8| b as char),
            decreases at + how_many - i,
        {
            push_char(&mut s, self.bfr[i] as char);
            proof {
                assert(self@.subrange(at as int, i
                    + 1).map_values(|b: u8| b as char) =~= self@.subrange(
                    at as int,
                    i as int,
                ).map_values(|b: u8| b as char).push(self.bfr@[i as int] as char));
            }
            i = i + 1;
        }
        self.lshift(at, how_many);
        s
    }

    /// Writes the UTF-8 encoding of `c` at `at`, moving the content from `at`
    /// on to the right; the caller guarantees the room and that `at` is
    /// inside the content.
    pub fn insert_ch(&mut self, at: usize, c: char)
        requires
            old(self).wf(),
            at < old(self)@.len(),
            old(self)@.len() + encode_utf8(seq![c]).len() <= old(self).store().len(),
        ensures
            final(self).wf(),
            final(self)@ == old(self)@.take(at as int) + encode_utf8(seq![c]) + old(self)@.skip(
                at as int,
            ),
            final(self).rest_kept(*old(self)),
    {
        let bytes = char_bytes(c);
        self.insert_bytes(at, bytes.as_slice());
    }

    /// Writes the UTF-8 bytes of `text` at `at`, moving the content from `at`
    /// on to the right; the caller guarantees the room and that `at` is not
    /// past the content.
    pub fn insert_str(&mut self, at: usize, text: &str)
        requires
            old(self).wf(),
            at <= old(self)@.len(),
            old(self)@.len() + text.spec_bytes().len() <= old(self).store().len(),
        ensures
            final(self).wf(),
            final(self)@ == old(self)@.take(at as int) + text.spec_bytes() + old(self)@.skip(
                at as int,
            ),
            final(self).rest_kept(*old(self)),
    {
        self.insert_bytes(at, text.as_bytes());
    }

    /// Writes the content of `other` at `at`, moving the content from `at` on
    /// to the right; the caller guarantees the room and that `at` is not past
    /// the content.
    pub fn insert(&mut self, at: usize, other: Self)
        requires
            old(self).wf(),
            other.wf(),
            at <= old(self)@.len(),
            old(self)@.len() + other@.len() <= old(self).store().len(),
        ensures
            final(self).wf(),
            final(self)@ == old(self)@.take(at as int) + other@ + old(self)@.skip(at as int),
            final(self).rest_kept(*old(self)),
    {
        self.insert_bytes(at, &other.bfr[0..other.len]);
    }

    /// Reverses the order of the content's bytes.
    pub fn reverse(&mut self)
        requires
            old(self).wf(),
        ensures
            final(self).wf(),
            final(self)@ == old(self)@.reverse(),
            final(self).rest_kept(*old(self)),
    {
        
        let n = self.len;
        if n == 0 {
            proof {
                assert(old(self)@.reverse() =~= old(self)@);
                assert(self.store() =~= self@ + zeros(0) + old(self).store().skip(0));
            }
            return;
        }
        let mid = n / 2;
        let mut lo: usize = 0;
        let mut hi: usize = n - 1;
        while lo < mid
            invariant
                n == old(self).len,
                old(self).wf(),
                0 < n <= old(self).bfr@.len(),
                mid == n / 2,
                lo <= mid,
                hi == n - 1 - lo,
                self.len == n,
                self.bfr@.len() == old(self).bfr@.len(),
                forall|t: int| 0 <= t < lo ==> self.bfr@[t] == old(self).bfr@[n - 1 - t],
                forall|t: int| hi < t < n ==> self.bfr@[t] == old(self).bfr@[n - 1 - t],
                forall|t: int| lo <= t <= hi ==> self.bfr@[t] == old(self).bfr@[t],
                forall|t: int| n <= t < self.bfr@.len() ==> self.bfr@[t] == old(self).bfr@[t],
            decreases mid - lo,
        {
            let temp = self.bfr[lo];
            self.bfr[lo] = self.bfr[hi];
            self.bfr[hi] = temp;
            lo = lo + 1;
            hi = hi - 1;
        }
        proof {
            assert(self@ =~= old(self)@.reverse());
            assert(self.store() =~= self@ + zeros(0) + old(self).store().skip(n as int));
        }
    }

    /// The bytes at `j - 1` and `j` stand in the order `desc` asks for.
    fn ordered_at(&self, j: usize, desc: bool) -> (r: bool)
        requires
            0 < j < self.store().len(),
        ensures
            r == in_order(self.store()[j - 1], self.store()[j as int], desc),
    {
        if desc {
            self.bfr[j - 1] >= self.bfr[j]
        } else {
            self.bfr[j - 1] <= self.bfr[j]
        }
    }

    /// Sorts the content in place by insertion with neighbour exchanges,
    /// ascending or, when `desc`, descending.
    fn sort_bytes(&mut self, desc: bool)
        requires
            old(self).wf(),
        ensures
            final(self).wf(),
            is_sorted(final(self)@, desc),
            final(self)@.to_multiset() == old(self)@.to_multiset(),
            final(self).rest_kept(*old(self)),
    {
        
        let n = self.len;
        if n == 0 {
            proof { assert(self.store() =~= self@ + zeros(0) + old(self).store().skip(0)); }
            return;
        }
        let mut i: usize = 1;
        while i < n
            invariant
                n == old(self).len,
                old(self).wf(),
                0 < n <= old(self).bfr@.len(),
                1 <= i <= n,
                self.len == n,
                self.bfr@.len() == old(self).bfr@.len(),
                forall|a: int, b: int|
                    0 <= a < b < i
                        ==> in_order(#[trigger] self.bfr@[a], #[trigger] self.bfr@[b], desc),
                self.bfr@.take(n as int).to_multiset() == old(self)@.to_multiset(),
                forall|t: int| n <= t < self.bfr@.len() ==> self.bfr@[t] == old(self).bfr@[t],
            decreases n - i,
        {
            let mut j: usize = i;
            while j > 0 && !self.ordered_at(j, desc)
                invariant
                    n == old(self).len,
                    0 < n <= old(self).bfr@.len(),
                    1 <= i < n,
                    j <= i,
                    self.len == n,
                    self.bfr@.len() == old(self).bfr@.len(),
                    forall|a: int, b: int|
                        0 <= a < b <= i && a != j && b != j ==> in_order(
                            #[trigger] self.bfr@[a],
                            #[trigger] self.bfr@[b],
                            desc,
                        ),
                    forall|b: int|
                        j < b <= i ==> in_order(self.bfr@[j as int], #[trigger] self.bfr@[b], desc)
                            && self.bfr@[j as int] != self.bfr@[b],
                    self.bfr@.take(n as int).to_multiset() == old(self)@.to_multiset(),
                    forall|t: int| n <= t < self.bfr@.len() ==> self.bfr@[t] == old(self).bfr@[t],
                decreases j,
            {
                proof { lemma_swap_multiset(self.bfr@.take(n as int), j - 1); }
                let ghost before = self.bfr@;
                let temp = self.bfr[j - 1];
                self.bfr[j - 1] = self.bfr[j];
                self.bfr[j] = temp;
                proof {
                    assert(self.bfr@.take(n as int) =~= before.take(n as int).update(
                        j - 1,
                        before[j as int],
                    ).update(j as int, before[j - 1]));
                }
                j = j - 1;
            }
            i = i + 1;
        }
        proof {
            assert(self.bfr@.take(n as int) =~= self@);
            assert(self.store() =~= self@ + zeros(0) + old(self).store().skip(n as int));
        }
    }

    /// Sorts the content in ascending byte order.
    pub fn sort(&mut self)
        requires
            old(self).wf(),
        ensures
            final(self).wf(),
            is_sorted(final(self)@, false),
            final(self)@.to_multiset() == old(self)@.to_multiset(),
            final(self).rest_kept(*old(self)),
    {
        self.sort_bytes(false);
    }

    /// Sorts the content in descending byte order.
    pub fn sort_desc(&mut self)
        requires
            old(self).wf(),
        ensures
            final(self).wf(),
            is_sorted(final(self)@, true),
            final(self)@.to_multiset() == old(self)@.to_multiset(),
            final(self).rest_kept(*old(self)),
    {
        self.sort_bytes(true);
    }

    /// Zeroed bytes left by two shrinking steps add up.
    proof fn lemma_rest_kept_chain(a: Self, b: Self, c: Self)
        requires
            b.rest_kept(a),
            c.rest_kept(b),
            c@.len() <= b@.len() <= a@.len(),
        ensures
            c.rest_kept(a),
    {
        let za = zeros((a@.len() - b@.len()) as nat);
        let zb = zeros((b@.len() - c@.len()) as nat);
        assert(b.store().skip(b@.len() as int) =~= za + a.store().skip(a@.len() as int));
        assert(c.store() =~= c@ + zeros((a@.len() - c@.len()) as nat) + a.store().skip(
            a@.len() as int,
        ));
    }

    /// Removes leading spaces (byte 32) as long as more than one byte is
    /// left.
    pub fn ltrim(&mut self)
        requires
            old(self).wf(),
        ensures
            final(self).wf(),
            final(self)@ == ltrim_spaces(old(self)@),
            final(self).rest_kept(*old(self)),
    {
        proof { assert(self.store() =~= self@ + zeros(0)
            + old(self).store().skip(self@.len() as int)); }
        while self.len > 1 && self.bfr[0] == 32u8
            invariant
                self.wf(),
                old(self).wf(),
                self@.len() <= old(self)@.len(),
                ltrim_spaces(self@) == ltrim_spaces(old(self)@),
                self.rest_kept(*old(self)),
            decreases self.len,
        {
            let ghost before = *self;
            self.lshift(0, 1);
            proof {
                assert(before@.take(0) + before@.skip(1) =~= before@.drop_first());
                Self::lemma_rest_kept_chain(*old(self), before, *self);
            }
        }
    }

    /// Removes trailing spaces (byte 32), zeroing them, as long as more than
    /// one byte is left.
    pub fn rtrim(&mut self)
        requires
            old(self).wf(),
        ensures
            final(self).wf(),
            final(self)@ == rtrim_spaces(old(self)@),
            final(self).rest_kept(*old(self)),
    {
        let len0 = self.len;
        while self.len > 1 && self.bfr[self.len - 1] == 32u8
            invariant
                self.wf(),
                len0 == old(self).len,
                len0 <= old(self).bfr@.len(),
                self.len <= len0,
                self.bfr@.len() == old(self).bfr@.len(),
                forall|t: int| 0 <= t < self.len ==> self.bfr@[t] == old(self).bfr@[t],
                forall|t: int| self.len <= t < len0 ==> self.bfr@[t] == 0u8,
                forall|t: int| len0 <= t < self.bfr@.len() ==> self.bfr@[t] == old(self).bfr@[t],
                rtrim_spaces(self@) == rtrim_spaces(old(self)@),
            decreases self.len,
        {
            let ghost before = self@;
            let last = self.len - 1;
            self.bfr[last] = 0;
            self.len = last;
            proof { assert(self@ =~= before.drop_last()); }
        }
        proof {
            assert(self.store() =~= self@ + zeros((len0 - self@.len()) as nat) + old(
                self,
            ).store().skip(len0 as int));
        }
    }

    /// Removes leading, then trailing spaces, keeping at least one byte.
    pub fn trim(&mut self)
        requires
            old(self).wf(),
        ensures
            final(self).wf(),
            final(self)@ == rtrim_spaces(ltrim_spaces(old(self)@)),
            final(self).rest_kept(*old(self)),
    {
        self.ltrim();
        let ghost mid = *self;
        self.rtrim();
        proof {
            lemma_trim_len(old(self)@);
            Self::lemma_rest_kept_chain(*old(self), mid, *self);
        }
    }

    /// Trims, then shortens each run of spaces to a single space, zeroing
    /// the bytes given up.
    pub fn trimall(&mut self)
        requires
            old(self).wf(),
        ensures
            final(self).wf(),
            final(self)@ == squeeze_spaces(rtrim_spaces(ltrim_spaces(old(self)@))),
            final(self).rest_kept(*old(self)),
    {
        self.trim();
        let ghost mid = *self;
        let ghost s = self@;
        let n = self.len;
        if n > 1 {
            let mut w: usize = 1;
            let mut prev: u8 = self.bfr[0];
            let mut i: usize = 1;
            proof {
                assert(s.take(1).len() == 1);
                assert(squeeze_spaces(s.take(1)) == s.take(1));
            }
            while i < n
                invariant
                    mid.wf(),
                    s == mid@,
                    n == mid.len,
                    self.len == n,
                    self.bfr@.len() == mid.bfr@.len(),
                    1 <= w <= i <= n,
                    prev == s[i - 1],
                    squeeze_spaces(s.take(i as int)).len() == w,
                    forall|t: int| 0 <= t < w
                        ==> self.bfr@[t] == squeeze_spaces(s.take(i as int))[t],
                    forall|t: int| i <= t < self.bfr@.len() ==> self.bfr@[t] == mid.bfr@[t],
                decreases n - i,
            {
                let b = self.bfr[i];
                proof {
                    assert(s.take(i + 1).drop_last() =~= s.take(i as int));
                    assert(s.take(i + 1)[i - 1] == s[i - 1]);
                }
                if !(b == 32u8 && prev == 32u8) {
                    self.bfr[w] = b;
                    w = w + 1;
                }
                prev = b;
                i = i + 1;
            }
            proof {
                assert(s.take(n as int) =~= s);
                lemma_squeeze_len(s);
            }
            let mut j: usize = w;
            while j < n
                invariant
                    mid.wf(),
                    s == mid@,
                    n == mid.len,
                    self.len == n,
                    self.bfr@.len() == mid.bfr@.len(),
                    w <= j <= n,
                    squeeze_spaces(s).len() == w,
                    forall|t: int| 0 <= t < w ==> self.bfr@[t] == squeeze_spaces(s)[t],
                    forall|t: int| w <= t < j ==> self.bfr@[t] == 0u8,
                    forall|t: int| n <= t < self.bfr@.len() ==> self.bfr@[t] == mid.bfr@[t],
                decreases n - j,
            {
                self.bfr[j] = 0;
                j = j + 1;
            }
            self.len = w;
            proof {
                assert(self@ =~= squeeze_spaces(s));
                assert(self.store() =~= self@ + zeros((n - w) as nat) + mid.store().skip(n as int));
                lemma_trim_len(old(self)@);
                Self::lemma_rest_kept_chain(*old(self), mid, *self);
            }
        } else {
            proof {
                assert(squeeze_spaces(s) == s);
            }
        }
    }

    /// The content, each byte read as the character of the same number.
    pub fn iter(&self) -> (r: Vec<char>)
        requires
            self.wf(),
        ensures
            r@ == self@.map_values(|b: u8| b as char),
    {
        let mut v: Vec<char> = Vec::new();
        let mut i: usize = 0;
        while i < self.len
            invariant
                self.wf(),
                i <= self.len,
                v@ == self@.take(i as int).map_values(|b: u8| b as char),
            decreases self.len - i,
        {
            v.push(self.bfr[i] as char);
            proof {
                assert(self@.take(i + 1).map_values(|b: u8| b as char) =~= self@.take(
                    i as int,
                ).map_values(|b: u8| b as char).push(self.store()[i as int] as char));
            }
            i = i + 1;
        }
        proof { assert(self@.take(i as int) =~= self@); }
        v
    }

    /// A copy of the content's bytes.
    pub fn bytes(&self) -> (r: Vec<u8>)
        requires
            self.wf(),
        ensures
            r@ == self@,
    {
        let mut v: Vec<u8> = Vec::new();
        let mut i: usize = 0;
        while i < self.len
            invariant
                self.wf(),
                i <= self.len,
                v@ == self@.take(i as int),
            decreases self.len - i,
        {
            v.push(self.bfr[i]);
            proof { assert(self@.take(i
                + 1) =~= self@.take(i as int).push(self.store()[i as int])); }
            i = i + 1;
        }
        proof { assert(self@.take(i as int) =~= self@); }
        v
    }

    /// The content as text; bytes that are not valid UTF-8 become U+FFFD.
    pub fn to_string(&self) -> (r: String)
        requires
            self.wf(),
        ensures
            r@ == lossy_text(self@),
            valid_utf8(self@) ==> r@ == decode_utf8(self@),
    {
        text_of(&self.bfr[0..self.len])
    }
}

/// Trimming never lengthens.
proof fn lemma_trim_len(s: Seq<u8>)
    ensures
        ltrim_spaces(s).len() <= s.len(),
        rtrim_spaces(ltrim_spaces(s)).len() <= ltrim_spaces(s).len(),
    decreases s.len(),
{
    lemma_ltrim_len(s);
    lemma_rtrim_len(ltrim_spaces(s));
}

proof fn lemma_ltrim_len(s: Seq<u8>)
    ensures
        ltrim_spaces(s).len() <= s.len(),
    decreases s.len(),
{
    if s.len() > 1 && s[0] == 32u8 {
        lemma_ltrim_len(s.drop_first());
    }
}

proof fn lemma_rtrim_len(s: Seq<u8>)
    ensures
        rtrim_spaces(s).len() <= s.len(),
    decreases s.len(),
{
    if s.len() > 1 && s.last() == 32u8 {
        lemma_rtrim_len(s.drop_last());
    }
}

} // verus!
