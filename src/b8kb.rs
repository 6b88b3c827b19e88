//! `B8KB`: a buffer with a fixed capacity of 8 KiB whose fallible operations
//! report failures as messages.
use vstd::prelude::*;
use vstd::string::StringSliceAdditionalSpecFns;
use vstd::utf8::{decode_utf8, encode_utf8, valid_utf8};
use crate::cb::BFRDYN;
use crate::helper::{capacity_message, index_message, not_enough_capacity, not_valid_index};
use crate::model::{
    byte_sum, is_sorted, lower_all, ltrim_spaces, proper_case, rtrim_spaces, title_case,
    upper_all,
};
use crate::text::{char_bytes, lossy_text, lemma_char_width};

verus! {

/// The capacity of a `B8KB`.
pub const MAX: usize = 8192;

/// A buffer of `MAX` bytes.
#[derive(Debug, Clone)]
pub struct B8KB {
    inner: BFRDYN<MAX>,
}

impl View for B8KB {
    type V = Seq<u8>;

    /// The content.
    closed spec fn view(&self) -> Seq<u8> {
        self.inner@
    }
}

impl B8KB {
    /// The content stays within `MAX` bytes.
    pub closed spec fn wf(&self) -> bool {
        self.inner.wf()
    }

    /// An empty buffer.
    pub fn new() -> (r: Self)
        ensures
            r.wf(),
            r@ == Seq::<u8>::empty(),
    {
        B8KB { inner: BFRDYN::new() }
    }

    /// A buffer holding the UTF-8 bytes of `text`; fails when they do not fit.
    pub fn from_text(text: &str) -> (r: Result<Self, String>)
        ensures
            text.spec_bytes().len() <= MAX ==> r is Ok && r->Ok_0.wf() && r->Ok_0@
                == text.spec_bytes(),
            text.spec_bytes().len() > MAX ==> r is Err && r->Err_0@ == capacity_message(
                MAX as nat,
                text.len() as nat,
            ),
    {
        match BFRDYN::<MAX>::from_text(text) {
            Ok(inner) => Ok(B8KB { inner }),
            Err(_) => Err(not_enough_capacity(MAX, text.len())),
        }
    }

    /// The content as text; bytes that are not valid UTF-8 become U+FFFD.
    pub fn to_string(&self) -> (r: String)
        requires
            self.wf(),
        ensures
            r@ == lossy_text(self@),
            valid_utf8(self@) ==> r@ == decode_utf8(self@),
    {
        self.inner.to_string()
    }

    /// Number of content bytes.
    pub fn len(&self) -> (r: usize)
        requires
            self.wf(),
        ensures
            r == self@.len(),
    {
        self.inner.len()
    }

    /// Sum of the content's byte values.
    pub fn checksum(&self) -> (r: usize)
        requires
            self.wf(),
        ensures
            r == byte_sum(self@),
    {
        proof {
            self.inner.lemma_len_within_capacity();
            lemma_sum_bounded(self@);
        }
        self.inner.checksum()
    }

    /// The last byte of the content as a `char`, or `'\0'` when it is empty.
    pub fn last(&self) -> (r: char)
        requires
            self.wf(),
        ensures
            r == (if self@.len() > 0 { self@.last() as char } else { '\0' }),
    {
        self.inner.last_char()
    }

    /// Number of bytes the buffer can hold.
    pub fn capacity(&self) -> (r: usize)
        ensures
            r == MAX,
    {
        MAX
    }

    /// Empties the buffer.
    pub fn clear(&mut self)
        ensures
            final(self).wf(),
            final(self)@ == Seq::<u8>::empty(),
    {
        self.inner.clear();
    }

    /// Puts the content of `other` in front of the content; fails, leaving
    /// the buffer as it was, when the two do not fit together.
    pub fn prepend(&mut self, other: Self) -> (r: Result<(), String>)
        requires
            old(self).wf(),
            other.wf(),
        ensures
            final(self).wf(),
            old(self)@.len() + other@.len() <= MAX ==> r is Ok
                && final(self)@ == other@ + old(self)@,
            old(self)@.len() + other@.len() > MAX ==> r is Err && r->Err_0@ == capacity_message(
                MAX as nat,
                old(self)@.len() + other@.len(),
            ) && final(self)@ == old(self)@,
    {
        proof {
            self.inner.lemma_len_within_capacity();
            other.inner.lemma_len_within_capacity();
        }
        let total = self.inner.len() + other.inner.len();
        match self.inner.prepend(other.inner) {
            Ok(()) => Ok(()),
            Err(_) => Err(not_enough_capacity(MAX, total)),
        }
    }

    /// Puts the UTF-8 bytes of `text` in front of the content; fails, leaving
    /// the buffer as it was, when they do not fit.
    pub fn prepend_str(&mut self, text: &str) -> (r: Result<(), String>)
        requires
            old(self).wf(),
            old(self)@.len() + text.spec_bytes().len() <= usize::MAX,
        ensures
            final(self).wf(),
            old(self)@.len() + text.spec_bytes().len() <= MAX ==> r is Ok && final(self)@
                == text.spec_bytes() + old(self)@,
            old(self)@.len() + text.spec_bytes().len() > MAX ==> r is Err && r->Err_0@
                == capacity_message(MAX as nat, old(self)@.len() + text.spec_bytes().len())
                && final(self)@ == old(self)@,
    {
        let total = self.inner.len() + text.len();
        match self.inner.prepend_str(text) {
            Ok(()) => Ok(()),
            Err(_) => Err(not_enough_capacity(MAX, total)),
        }
    }

    /// Writes the content of `other` after the content; fails, leaving the
    /// buffer as it was, when the two do not fit together.
    pub fn append(&mut self, other: Self) -> (r: Result<(), String>)
        requires
            old(self).wf(),
            other.wf(),
        ensures
            final(self).wf(),
            old(self)@.len() + other@.len() <= MAX ==> r is Ok && final(self)@ == old(self)@
                + other@,
            old(self)@.len() + other@.len() > MAX ==> r is Err && r->Err_0@ == capacity_message(
                MAX as nat,
                old(self)@.len() + other@.len(),
            ) && final(self)@ == old(self)@,
    {
        proof {
            self.inner.lemma_len_within_capacity();
            other.inner.lemma_len_within_capacity();
        }
        let total = self.inner.len() + other.inner.len();
        match self.inner.append(other.inner) {
            Ok(()) => Ok(()),
            Err(_) => Err(not_enough_capacity(MAX, total)),
        }
    }

    /// Writes the UTF-8 bytes of `text` after the content; fails, leaving the
    /// buffer as it was, when they do not fit.
    pub fn append_str(&mut self, text: &str) -> (r: Result<(), String>)
        requires
            old(self).wf(),
            old(self)@.len() + text.spec_bytes().len() <= usize::MAX,
        ensures
            final(self).wf(),
            old(self)@.len() + text.spec_bytes().len() <= MAX ==> r is Ok
                && final(self)@ == old(self)@ + text.spec_bytes(),
            old(self)@.len() + text.spec_bytes().len() > MAX ==> r is Err && r->Err_0@
                == capacity_message(MAX as nat, old(self)@.len() + text.spec_bytes().len())
                && final(self)@ == old(self)@,
    {
        let total = self.inner.len() + text.len();
        match self.inner.append_str(text) {
            Ok(()) => Ok(()),
            Err(_) => Err(not_enough_capacity(MAX, total)),
        }
    }

    /// Writes the UTF-8 encoding of `c` after the content; fails, leaving the
    /// buffer as it was, when it does not fit.
    pub fn append_ch(&mut self, c: char) -> (r: Result<(), String>)
        requires
            old(self).wf(),
        ensures
            final(self).wf(),
            old(self)@.len() + encode_utf8(seq![c]).len() <= MAX ==> r is Ok && final(self)@
                == old(self)@ + encode_utf8(seq![c]),
            old(self)@.len() + encode_utf8(seq![c]).len() > MAX ==> r is Err && r->Err_0@
                == capacity_message(MAX as nat, old(self)@.len() + encode_utf8(seq![c]).len())
                && final(self)@ == old(self)@,
    {
        proof {
            self.inner.lemma_len_within_capacity();
            lemma_char_width(c);
        }
        let w = char_bytes(c).len();
        let total = self.inner.len() + w;
        match self.inner.append_ch(c) {
            Ok(()) => Ok(()),
            Err(_) => Err(not_enough_capacity(MAX, total)),
        }
    }

    /// Doubles the byte at `pos`, moving the rest one place right; fails,
    /// leaving the buffer as it was, unless `pos` is inside the content and
    /// the buffer is not full.
    pub fn rshift(&mut self, pos: usize) -> (r: Result<(), String>)
        requires
            old(self).wf(),
        ensures
            final(self).wf(),
            pos < old(self)@.len() && old(self)@.len() < MAX ==> r is Ok
                && final(self)@ == old(self)@.insert(pos as int, old(self)@[pos as int]),
            !(pos < old(self)@.len() && old(self)@.len() < MAX) ==> r is Err && r->Err_0@
                == index_message(old(self)@.len(), pos as nat) && final(self)@ == old(self)@,
    {
        let len = self.inner.len();
        match self.inner.rshift(pos) {
            Ok(()) => Ok(()),
            Err(_) => Err(not_valid_index(len, pos)),
        }
    }

    /// Removes the byte at `pos`; fails, leaving the buffer as it was, unless
    /// `pos` is inside the content.
    pub fn lshift(&mut self, pos: usize) -> (r: Result<(), String>)
        requires
            old(self).wf(),
        ensures
            final(self).wf(),
            pos < old(self)@.len() ==> r is Ok && final(self)@ == old(self)@.remove(pos as int),
            pos >= old(self)@.len() ==> r is Err && r->Err_0@ == index_message(
                old(self)@.len(),
                pos as nat,
            ) && final(self)@ == old(self)@,
    {
        let len = self.inner.len();
        match self.inner.lshift(pos) {
            Ok(()) => Ok(()),
            Err(_) => Err(not_valid_index(len, pos)),
        }
    }

    /// Removes the byte at `pos` and returns it; `None` when `pos` is not
    /// inside the content.
    pub fn take(&mut self, pos: usize) -> (r: Option<u8>)
        requires
            old(self).wf(),
        ensures
            final(self).wf(),
            pos < old(self)@.len() ==> r == Some(old(self)@[pos as int])
                && final(self)@ == old(self)@.remove(pos as int),
            pos >= old(self)@.len() ==> r is None && final(self)@ == old(self)@,
    {
        self.inner.take(pos)
    }

    /// Writes the content of `other` at `pos`. Fails, leaving the buffer as
    /// it was, when the two do not fit together or `pos` is not inside the
    /// content, whatever `other` holds.
    pub fn insert(&mut self, other: Self, pos: usize) -> (r: Result<(), String>)
        requires
            old(self).wf(),
            other.wf(),
        ensures
            final(self).wf(),
            old(self)@.len() + other@.len() > MAX ==> r is Err && r->Err_0@ == capacity_message(
                MAX as nat,
                old(self)@.len() + other@.len(),
            ) && final(self)@ == old(self)@,
            old(self)@.len() + other@.len() <= MAX && pos >= old(self)@.len() ==> r is Err
                && r->Err_0@ == index_message(old(self)@.len(), pos as nat)
                && final(self)@ == old(self)@,
            old(self)@.len() + other@.len() <= MAX && pos < old(self)@.len() ==> r is Ok
                && final(self)@ == old(self)@.take(pos as int) + other@ + old(self)@.skip(
                pos as int,
            ),
    {
        proof {
            self.inner.lemma_len_within_capacity();
            other.inner.lemma_len_within_capacity();
        }
        let len = self.inner.len();
        let total = len + other.inner.len();
        if total > MAX {
            Err(not_enough_capacity(MAX, total))
        } else if pos >= len {
            Err(not_valid_index(len, pos))
        } else {
            let _ = self.inner.insert(other.inner, pos);
            Ok(())
        }
    }

    /// Writes the UTF-8 encoding of `c` at `pos`. Fails, leaving the buffer
    /// as it was, when it does not fit or `pos` is not inside the content.
    pub fn insert_ch(&mut self, c: char, pos: usize) -> (r: Result<(), String>)
        requires
            old(self).wf(),
        ensures
            final(self).wf(),
            old(self)@.len() + encode_utf8(seq![c]).len() > MAX ==> r is Err && r->Err_0@
                == capacity_message(MAX as nat, old(self)@.len() + encode_utf8(seq![c]).len())
                && final(self)@ == old(self)@,
            old(self)@.len() + encode_utf8(seq![c]).len() <= MAX
                && pos >= old(self)@.len() ==> r is Err
                && r->Err_0@ == index_message(old(self)@.len(), pos as nat)
                    && final(self)@ == old(self)@,
            old(self)@.len() + encode_utf8(seq![c]).len() <= MAX
                && pos < old(self)@.len() ==> r is Ok
                && final(self)@
                    == old(self)@.take(pos as int) + encode_utf8(seq![c])
                        + old(self)@.skip(pos as int),
    {
        proof {
            self.inner.lemma_len_within_capacity();
            lemma_char_width(c);
        }
        let len = self.inner.len();
        let w = char_bytes(c).len();
        if w > MAX - len {
            Err(not_enough_capacity(MAX, len + w))
        } else if pos >= len {
            Err(not_valid_index(len, pos))
        } else {
            let _ = self.inner.insert_ch(c, pos);
            Ok(())
        }
    }

    /// Reverses the order of the content's bytes.
    pub fn reverse(&mut self)
        requires
            old(self).wf(),
        ensures
            final(self).wf(),
            final(self)@ == old(self)@.reverse(),
    {
        self.inner.reverse();
    }

    /// Sorts the content in ascending byte order.
    pub fn sort(&mut self)
        requires
            old(self).wf(),
        ensures
            final(self).wf(),
            is_sorted(final(self)@, false),
            final(self)@.to_multiset() == old(self)@.to_multiset(),
    {
        self.inner.sort();
    }

    /// Sorts the content in descending byte order.
    pub fn sort_desc(&mut self)
        requires
            old(self).wf(),
        ensures
            final(self).wf(),
            is_sorted(final(self)@, true),
            final(self)@.to_multiset() == old(self)@.to_multiset(),
    {
        self.inner.sort_desc();
    }

    /// Removes leading spaces, keeping at least one byte.
    pub fn ltrim(&mut self)
        requires
            old(self).wf(),
        ensures
            final(self).wf(),
            final(self)@ == ltrim_spaces(old(self)@),
    {
        self.inner.ltrim();
    }

    /// Removes trailing spaces, keeping at least one byte.
    pub fn rtrim(&mut self)
        requires
            old(self).wf(),
        ensures
            final(self).wf(),
            final(self)@ == rtrim_spaces(old(self)@),
    {
        self.inner.rtrim();
    }

    /// Removes leading, then trailing spaces, keeping at least one byte.
    pub fn trim(&mut self)
        requires
            old(self).wf(),
        ensures
            final(self).wf(),
            final(self)@ == rtrim_spaces(ltrim_spaces(old(self)@)),
    {
        self.inner.trim();
    }

    /// Puts the ASCII letters in lower case.
    pub fn to_lower(&mut self)
        requires
            old(self).wf(),
        ensures
            final(self).wf(),
            final(self)@ == lower_all(old(self)@),
    {
        self.inner.lower();
    }

    /// Puts the ASCII letters in upper case.
    pub fn to_upper(&mut self)
        requires
            old(self).wf(),
        ensures
            final(self).wf(),
            final(self)@ == upper_all(old(self)@),
    {
        self.inner.upper();
    }

    /// Lower case, with the first byte in upper case.
    pub fn to_title(&mut self)
        requires
            old(self).wf(),
        ensures
            final(self).wf(),
            final(self)@ == title_case(old(self)@),
    {
        self.inner.title();
    }

    /// Lower case, with the first byte and each byte after a space in upper
    /// case.
    pub fn to_proper(&mut self)
        requires
            old(self).wf(),
        ensures
            final(self).wf(),
            final(self)@ == proper_case(old(self)@),
    {
        self.inner.proper();
    }
}

/// Content of at most `MAX` bytes sums to at most `255 * MAX`.
proof fn lemma_sum_bounded(s: Seq<u8>)
    requires
        s.len() <= MAX,
    ensures
        byte_sum(s) <= 255 * s.len(),
        byte_sum(s) <= usize::MAX,
    decreases s.len(),
{
    if s.len() > 0 {
        lemma_sum_bounded(s.drop_last());
    }
}

} // verus!
