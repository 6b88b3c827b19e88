//! Operations on a raw byte slice paired with a length, and the wording of
//! the error messages.
use vstd::prelude::*;
use vstd::string::{StringExecFns, StringSliceAdditionalSpecFns};
use vstd::utf8::encode_utf8;
use crate::errors::NotEnoughCapacity;
use crate::text::push_char;
use crate::model::{byte_sum, lemma_byte_sum_prefix, lemma_byte_sum_step};

verus! {

/// The character of the decimal digit `d`.
pub open spec fn digit_char(d: nat) -> char {
    seq!['0', '1', '2', '3', '4', '5', '6', '7', '8', '9'][d as int]
}

/// The decimal digits of `n`, without leading zeros.
pub open spec fn decimal(n: nat) -> Seq<char>
    decreases n,
{
    if n < 10 {
        seq![digit_char(n)]
    } else {
        decimal(n / 10).push(digit_char(n % 10))
    }
}

/// The character of the decimal digit `d`.
fn digit(d: usize) -> (c: char)
    requires
        d < 10,
    ensures
        c == digit_char(d as nat),
{
    let digits = ['0', '1', '2', '3', '4', '5', '6', '7', '8', '9'];
    proof {
        assert(digits@ =~= seq!['0', '1', '2', '3', '4', '5', '6', '7', '8', '9']);
    }
    digits[d]
}

/// Writes the decimal digits of `n` after the text in `s`.
fn push_decimal(s: &mut String, n: usize)
    ensures
        final(s)@ == old(s)@ + decimal(n as nat),
    decreases n,
{
    if n >= 10 {
        push_decimal(s, n / 10);
    }
    push_char(s, digit(n % 10));
    proof {
        if n >= 10 {
            assert(old(s)@ + decimal(n as nat) =~= old(s)@ + decimal((n / 10) as nat) + seq![
                digit_char((n % 10) as nat),
            ]);
        } else {
            assert(old(s)@ + decimal(n as nat) =~= old(s)@.push(digit_char(n as nat)));
        }
    }
}

/// The decimal digits of `n`.
fn decimal_text(n: usize) -> (r: String)
    ensures
        r@ == decimal(n as nat),
{
    let mut s = String::new();
    push_decimal(&mut s, n);
    proof { assert(s@ =~= decimal(n as nat)); }
    s
}

/// Wording of the capacity error.
pub open spec fn capacity_message(buffer: nat, value: nat) -> Seq<char> {
    "Capacity of buffer is "@ + decimal(buffer) + " but trying to store "@ + decimal(value)
}

/// Wording of the index error.
pub open spec fn index_message(len: nat, index: nat) -> Seq<char> {
    "Buffer len is "@ + decimal(len) + " but trying to access index at "@ + decimal(index)
}

/// The message for a write of `value` bytes into a buffer of capacity
/// `buffer`.
pub fn not_enough_capacity(buffer: usize, value: usize) -> (r: String)
    ensures
        r@ == capacity_message(buffer as nat, value as nat),
{
    let head = String::from_str("Capacity of buffer is ");
    let b = decimal_text(buffer);
    let v = decimal_text(value);
    head.concat(b.as_str()).concat(" but trying to store ").concat(v.as_str())
}

/// The message for an access at `index` in content of length `len`.
pub fn not_valid_index(len: usize, index: usize) -> (r: String)
    ensures
        r@ == index_message(len as nat, index as nat),
{
    let head = String::from_str("Buffer len is ");
    let l = decimal_text(len);
    let i = decimal_text(index);
    head.concat(l.as_str()).concat(" but trying to access index at ").concat(i.as_str())
}

/// Copies the UTF-8 bytes of `value` to the front of `arr`.
pub fn from(value: &str, arr: &mut [u8])
    requires
        value.spec_bytes().len() <= old(arr)@.len(),
    ensures
        final(arr)@ == value.spec_bytes() + old(arr)@.skip(value.spec_bytes().len() as int),
{
    from_slice(value.as_bytes(), arr);
}

/// Copies `value` to the front of `arr`.
pub fn from_slice(value: &[u8], arr: &mut [u8])
    requires
        value@.len() <= old(arr)@.len(),
    ensures
        final(arr)@ == value@ + old(arr)@.skip(value@.len() as int),
{
    let n = value.len();
    let mut i: usize = 0;
    while i < n
        invariant
            n == value@.len(),
            n <= arr@.len(),
            arr@.len() == old(arr)@.len(),
            i <= n,
            forall|t: int| 0 <= t < i ==> arr@[t] == value@[t],
            forall|t: int| i <= t < arr@.len() ==> arr@[t] == old(arr)@[t],
        decreases n - i,
    {
        arr[i] = value[i];
        i = i + 1;
    }
    proof { assert(arr@ =~= value@ + old(arr)@.skip(value@.len() as int)); }
}

/// The lengths are equal and `arra` agrees with the start of `arrb`.
pub fn eq(lena: &usize, arra: &[u8], lenb: &usize, arrb: &[u8]) -> (r: bool)
    requires
        arra@.len() <= arrb@.len(),
    ensures
        r == (*lena == *lenb && arra@ == arrb@.take(arra@.len() as int)),
{
    if *lena != *lenb {
        return false;
    }
    let mut i: usize = 0;
    while i < arra.len()
        invariant
            arra@.len() <= arrb@.len(),
            i <= arra@.len(),
            forall|t: int| 0 <= t < i ==> arra@[t] == arrb@[t],
        decreases arra@.len() - i,
    {
        if arra[i] != arrb[i] {
            proof { assert(arrb@.take(arra@.len() as int)[i as int] != arra@[i as int]); }
            return false;
        }
        i = i + 1;
    }
    proof { assert(arra@ =~= arrb@.take(arra@.len() as int)); }
    true
}

/// The negation of `eq`.
pub fn ne(lena: &usize, arra: &[u8], lenb: &usize, arrb: &[u8]) -> (r: bool)
    requires
        arra@.len() <= arrb@.len(),
    ensures
        r == !(*lena == *lenb && arra@ == arrb@.take(arra@.len() as int)),
{
    !eq(lena, arra, lenb, arrb)
}

/// Writes the byte `c as u8` at `len` and counts it, without a capacity
/// check: the caller guarantees that `len` is inside `arr`.
pub fn append_ch_unchecked(len: &mut usize, arr: &mut [u8], c: char)
    requires
        *old(len) < old(arr)@.len(),
    ensures
        final(arr)@ == old(arr)@.update(*old(len) as int, c as u8),
        *final(len) == *old(len) + 1,
{
    arr[*len] = c as u8;
    *len = *len + 1;
}

/// Writes the UTF-8 encoding of `c` at `len` and counts it; fails, changing
/// nothing, when it does not fit in `arr`.
pub fn append_ch(len: &mut usize, arr: &mut [u8], c: char) -> (r: Result<(), NotEnoughCapacity>)
    requires
        *old(len) <= old(arr)@.len(),
        *old(len) + encode_utf8(seq![c]).len() <= usize::MAX,
    ensures
        *old(len) + encode_utf8(seq![c]).len() <= old(arr)@.len() ==> r is Ok && final(arr)@
            == old(arr)@.take(*old(len) as int) + encode_utf8(seq![c]) + old(arr)@.skip(
            *old(len) + encode_utf8(seq![c]).len(),
        ) && *final(len) == *old(len) + encode_utf8(seq![c]).len(),
        *old(len) + encode_utf8(seq![c]).len() > old(arr)@.len() ==> r == Err::<(), _>(
            NotEnoughCapacity::spec_throw(
                old(arr)@.len() as usize,
                (*old(len) + encode_utf8(seq![c]).len()) as usize,
            ),
        ) && final(arr)@ == old(arr)@ && *final(len) == *old(len),
{
    let bytes = crate::text::char_bytes(c);
    let w = bytes.len();
    let alen = arr.len();
    if w <= alen - *len {
        let start = *len;
        let mut i: usize = 0;
        while i < w
            invariant
                w == bytes@.len(),
                start == *old(len),
                *len == start,
                start + w <= alen,
                alen == arr@.len(),
                arr@.len() == old(arr)@.len(),
                i <= w,
                forall|t: int| 0 <= t < start ==> arr@[t] == old(arr)@[t],
                forall|t: int| start <= t < start + i ==> arr@[t] == bytes@[t - start],
                forall|t: int| start + i <= t < arr@.len() ==> arr@[t] == old(arr)@[t],
            decreases w - i,
        {
            arr[start + i] = bytes[i];
            i = i + 1;
        }
        *len = start + w;
        proof {
            assert(arr@ =~= old(arr)@.take(start as int) + bytes@ + old(arr)@.skip(start + w));
        }
        Ok(())
    } else {
        Err(NotEnoughCapacity::throw(arr.len(), *len + w))
    }
}

/// Sum of the byte values of the whole slice.
pub fn checksum(arr: &[u8]) -> (r: usize)
    requires
        byte_sum(arr@) <= usize::MAX,
    ensures
        r == byte_sum(arr@),
{
    let mut result: usize = 0;
    let mut i: usize = 0;
    while i < arr.len()
        invariant
            byte_sum(arr@) <= usize::MAX,
            i <= arr@.len(),
            result == byte_sum(arr@.take(i as int)),
        decreases arr@.len() - i,
    {
        proof {
            lemma_byte_sum_step(arr@, i as int);
            lemma_byte_sum_prefix(arr@, i as int + 1);
        }
        result = result + arr[i] as usize;
        i = i + 1;
    }
    proof { assert(arr@.take(i as int) =~= arr@); }
    result
}

} // verus!
