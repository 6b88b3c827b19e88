//! Conversions between characters, text and UTF-8 bytes.
use vstd::prelude::*;
use vstd::utf8::{valid_utf8, decode_utf8, encode_utf8};

verus! {

/// The text that `String::from_utf8_lossy` makes of `b`.
pub uninterp spec fn lossy_text(b: Seq<u8>) -> Seq<char>;

/// Relies on `String::from_utf8_lossy`: it decodes `b` as UTF-8, putting
/// U+FFFD in place of each invalid sequence, so that valid UTF-8 comes back
/// as exactly the text it encodes.
#[verifier::external_body]
pub fn text_of(b: &[u8]) -> (r: String)
    ensures
        r@ == lossy_text(b@),
        valid_utf8(b@) ==> r@ == decode_utf8(b@),
{
    String::from_utf8_lossy(b).into_owned()
}

/// Each byte sequence of `segs` decoded as text.
pub fn decode_all(segs: Vec<Vec<u8>>) -> (v: Vec<String>)
    ensures
        v@.len() == segs@.len(),
        forall|k: int| 0 <= k < v@.len() ==> #[trigger] v@[k]@ == lossy_text(segs@[k]@),
        forall|k: int|
            0 <= k < v@.len() && valid_utf8(segs@[k]@) ==> #[trigger] v@[k]@ == decode_utf8(
                segs@[k]@,
            ),
{
    let mut v: Vec<String> = Vec::new();
    let mut i: usize = 0;
    while i < segs.len()
        invariant
            i <= segs@.len(),
            v@.len() == i,
            forall|k: int| 0 <= k < i ==> #[trigger] v@[k]@ == lossy_text(segs@[k]@),
            forall|k: int|
                0 <= k < i && valid_utf8(segs@[k]@) ==> #[trigger] v@[k]@ == decode_utf8(
                    segs@[k]@,
                ),
        decreases segs@.len() - i,
    {
        v.push(text_of(segs[i].as_slice()));
        i = i + 1;
    }
    v
}

/// Relies on `char::encode_utf8`: it writes the UTF-8 encoding of `c`.
#[verifier::external_body]
pub fn char_bytes(c: char) -> (r: Vec<u8>)
    ensures
        r@ == encode_utf8(seq![c]),
{
    let mut buf = [0u8; 4];
    c.encode_utf8(&mut buf).as_bytes().to_vec()
}

/// Relies on `String::push`: it adds `c` at the end of `s`.
#[verifier::external_body]
pub fn push_char(s: &mut String, c: char)
    ensures
        final(s)@ == old(s)@.push(c),
{
    s.push(c);
}

/// A character takes one to four bytes in UTF-8.
pub proof fn lemma_char_width(c: char)
    ensures
        1 <= encode_utf8(seq![c]).len() <= 4,
{
    assert(seq![c].drop_first() =~= Seq::<char>::empty());
    reveal_with_fuel(encode_utf8, 2);
}

} // verus!
