//! Properties that relate several buffer operations, stated over the
//! sequences that their contracts speak of.
use vstd::prelude::*;
use vstd::string::StringSliceAdditionalSpecFns;
use vstd::utf8::{encode_utf8, decode_utf8, valid_utf8};
use crate::cb::BFRDYN;
use crate::model::is_sorted;

verus! {

/// Encoding two texts one after the other gives the encoding of the joined
/// text.
pub proof fn lemma_encode_concat(a: Seq<char>, b: Seq<char>)
    ensures
        encode_utf8(a + b) == encode_utf8(a) + encode_utf8(b),
    decreases a.len(),
{
    if a.len() == 0 {
        assert(a + b =~= b);
        assert(encode_utf8(a) + encode_utf8(b) =~= encode_utf8(b));
    } else {
        assert((a + b).drop_first() =~= a.drop_first() + b);
        assert((a + b)[0] == a[0]);
        lemma_encode_concat(a.drop_first(), b);
        let e = encode_scalar_of(a[0]);
        assert(encode_utf8(a + b) == e + encode_utf8(a.drop_first() + b));
        assert(encode_utf8(a) == e + encode_utf8(a.drop_first()));
        assert(e + (encode_utf8(a.drop_first()) + encode_utf8(b)) =~= (e + encode_utf8(
            a.drop_first(),
        )) + encode_utf8(b));
    }
}

spec fn encode_scalar_of(c: char) -> Seq<u8> {
    vstd::utf8::encode_scalar(c as u32)
}

/// A buffer made from the text `s` renders back to `s`: its content is valid
/// UTF-8 that decodes to `s`.
pub proof fn lemma_from_text_round_trip<const CAPACITY: usize>(s: &str, b: BFRDYN<CAPACITY>)
    requires
        b@ == s.spec_bytes(),
    ensures
        valid_utf8(b@),
        decode_utf8(b@) == s@,
{
    vstd::utf8::encode_utf8_valid_utf8(s@);
    vstd::utf8::encode_utf8_decode_utf8(s@);
}

/// Appending `a` and then `b` writes the same bytes as appending the joined
/// text `ab` once, to any content `x`.
pub proof fn lemma_append_twice(x: Seq<u8>, a: &str, b: &str, ab: &str)
    requires
        ab@ == a@ + b@,
    ensures
        (x + a.spec_bytes()) + b.spec_bytes() == x + ab.spec_bytes(),
        a.spec_bytes().len() + b.spec_bytes().len() == ab.spec_bytes().len(),
{
    lemma_encode_concat(a@, b@);
    assert((x + a.spec_bytes()) + b.spec_bytes() =~= x + (a.spec_bytes() + b.spec_bytes()));
}

/// Reversing twice gives back the content.
pub proof fn lemma_reverse_twice(s: Seq<u8>)
    ensures
        s.reverse().reverse() == s,
{
    assert(s.reverse().reverse() =~= s);
}

/// Two ascending sequences with the same bytes are equal.
pub proof fn lemma_sorted_unique(x: Seq<u8>, y: Seq<u8>)
    requires
        is_sorted(x, false),
        is_sorted(y, false),
        x.to_multiset() == y.to_multiset(),
    ensures
        x == y,
    decreases x.len(),
{
    broadcast use vstd::seq_lib::group_to_multiset_ensures;

    assert(x.len() == y.len()) by {
        assert(x.len() == x.to_multiset().len());
        assert(y.len() == y.to_multiset().len());
    }
    if x.len() == 0 {
        assert(x =~= y);
    } else {
        assert(y.contains(x[0])) by {
            assert(x.contains(x[0]));
            assert(x.to_multiset().count(x[0]) > 0);
        }
        assert(x.contains(y[0])) by {
            assert(y.contains(y[0]));
            assert(y.to_multiset().count(y[0]) > 0);
        }
        let j = choose|j: int| 0 <= j < y.len() && y[j] == x[0];
        let k = choose|k: int| 0 <= k < x.len() && x[k] == y[0];
        if j > 0 {
            assert(y[0] <= y[j]);
        }
        if k > 0 {
            assert(x[0] <= x[k]);
        }
        assert(x[0] == y[0]);
        assert(x.remove(0) =~= x.drop_first());
        assert(y.remove(0) =~= y.drop_first());
        assert(x.drop_first().to_multiset() == y.drop_first().to_multiset());
        let xs = x.drop_first();
        let ys = y.drop_first();
        assert forall|a: int, b: int|
            0 <= a < b < xs.len() implies #[trigger] xs[a] <= #[trigger] xs[b] by {
            assert(x[a + 1] <= x[b + 1]);
        }
        assert forall|a: int, b: int|
            0 <= a < b < ys.len() implies #[trigger] ys[a] <= #[trigger] ys[b] by {
            assert(y[a + 1] <= y[b + 1]);
        }
        lemma_sorted_unique(xs, ys);
        assert forall|i: int| 0 <= i < x.len() implies x[i] == y[i] by {
            if i > 0 {
                assert(x[i] == xs[i - 1]);
                assert(y[i] == ys[i - 1]);
            }
        }
        assert(x =~= y);
    }
}

/// The descending sort of an ascending sequence `a` is `a` reversed.
pub proof fn lemma_desc_is_reverse_of_asc(a: Seq<u8>, d: Seq<u8>)
    requires
        is_sorted(a, false),
        is_sorted(d, true),
        d.to_multiset() == a.to_multiset(),
    ensures
        d == a.reverse(),
{
    let r = d.reverse();
    assert forall|i: int, j: int|
        0 <= i < j < r.len() implies #[trigger] r[i] <= #[trigger] r[j] by {
        assert(d[d.len() - 1 - j] >= d[d.len() - 1 - i]);
    }
    d.lemma_reverse_to_multiset();
    lemma_sorted_unique(r, a);
    assert(d =~= a.reverse());
}

} // verus!
