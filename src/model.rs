//! Mathematical descriptions of the buffer operations, over byte sequences.
use vstd::prelude::*;

verus! {

/// Sum of the byte values of `s`.
pub open spec fn byte_sum(s: Seq<u8>) -> nat
    decreases s.len(),
{
    if s.len() == 0 {
        0
    } else {
        byte_sum(s.drop_last()) + s.last() as nat
    }
}

/// A prefix never sums to more than the whole.
pub proof fn lemma_byte_sum_prefix(s: Seq<u8>, i: int)
    requires
        0 <= i <= s.len(),
    ensures
        byte_sum(s.take(i)) <= byte_sum(s),
    decreases s.len(),
{
    if i < s.len() {
        assert(s.drop_last().take(i) =~= s.take(i));
        lemma_byte_sum_prefix(s.drop_last(), i);
    } else {
        assert(s.take(i) =~= s);
    }
}

/// `s` extended by one byte sums to the old sum plus that byte.
pub proof fn lemma_byte_sum_step(s: Seq<u8>, i: int)
    requires
        0 <= i < s.len(),
    ensures
        byte_sum(s.take(i + 1)) == byte_sum(s.take(i)) + s[i] as nat,
{
    assert(s.take(i + 1).drop_last() =~= s.take(i));
}

/// `n` zero bytes.
pub open spec fn zeros(n: nat) -> Seq<u8> {
    Seq::new(n, |i: int| 0u8)
}

/// ASCII upper case letters become lower case; every other byte stays.
pub open spec fn lower_byte(b: u8) -> u8 {
    if 65 <= b <= 90 {
        (b + 32) as u8
    } else {
        b
    }
}

/// ASCII lower case letters become upper case; every other byte stays.
pub open spec fn upper_byte(b: u8) -> u8 {
    if 97 <= b <= 122 {
        (b - 32) as u8
    } else {
        b
    }
}

/// `s` with every ASCII letter in lower case.
pub open spec fn lower_all(s: Seq<u8>) -> Seq<u8> {
    s.map_values(|b: u8| lower_byte(b))
}

/// `s` with every ASCII letter in upper case.
pub open spec fn upper_all(s: Seq<u8>) -> Seq<u8> {
    s.map_values(|b: u8| upper_byte(b))
}

/// `s` in lower case but for its first byte, which is in upper case.
pub open spec fn title_case(s: Seq<u8>) -> Seq<u8> {
    Seq::new(
        s.len(),
        |i: int|
            if i == 0 {
                upper_byte(lower_byte(s[i]))
            } else {
                lower_byte(s[i])
            },
    )
}

/// `s` in lower case but for the first byte and each byte that follows a
/// space, which are in upper case.
pub open spec fn proper_case(s: Seq<u8>) -> Seq<u8> {
    Seq::new(
        s.len(),
        |i: int|
            if i == 0 || s[i - 1] == 32u8 {
                upper_byte(lower_byte(s[i]))
            } else {
                lower_byte(s[i])
            },
    )
}

/// `s` without its leading spaces, keeping at least one byte.
pub open spec fn ltrim_spaces(s: Seq<u8>) -> Seq<u8>
    decreases s.len(),
{
    if s.len() > 1 && s[0] == 32u8 {
        ltrim_spaces(s.drop_first())
    } else {
        s
    }
}

/// `s` without its trailing spaces, keeping at least one byte.
pub open spec fn rtrim_spaces(s: Seq<u8>) -> Seq<u8>
    decreases s.len(),
{
    if s.len() > 1 && s.last() == 32u8 {
        rtrim_spaces(s.drop_last())
    } else {
        s
    }
}

/// `a` may stand before `b`: in ascending order `a <= b`, in descending
/// order `a >= b`.
pub open spec fn in_order(a: u8, b: u8, desc: bool) -> bool {
    if desc {
        a >= b
    } else {
        a <= b
    }
}

/// Every byte of `s` may stand before every later one.
pub open spec fn is_sorted(s: Seq<u8>, desc: bool) -> bool {
    forall|i: int, j: int| 0 <= i < j < s.len() ==> in_order(#[trigger] s[i], #[trigger] s[j], desc)
}

/// Exchanging two neighbouring bytes keeps the multiset of bytes.
pub proof fn lemma_swap_multiset(s: Seq<u8>, i: int)
    requires
        0 <= i,
        i + 1 < s.len(),
    ensures
        s.update(i, s[i + 1]).update(i + 1, s[i]).to_multiset() == s.to_multiset(),
{
    let a = s.take(i);
    let x = seq![s[i]];
    let y = seq![s[i + 1]];
    let b = s.skip(i + 2);
    let t = s.update(i, s[i + 1]).update(i + 1, s[i]);
    assert(s =~= a + x + y + b);
    assert(t =~= a + y + x + b);
    vstd::seq_lib::lemma_multiset_commutative(a + x + y, b);
    vstd::seq_lib::lemma_multiset_commutative(a + x, y);
    vstd::seq_lib::lemma_multiset_commutative(a, x);
    vstd::seq_lib::lemma_multiset_commutative(a + y + x, b);
    vstd::seq_lib::lemma_multiset_commutative(a + y, x);
    vstd::seq_lib::lemma_multiset_commutative(a, y);
    assert(t.to_multiset() =~= s.to_multiset());
}

/// Number of non-zero bytes in `s`.
pub open spec fn count_nonzero(s: Seq<u8>) -> nat
    decreases s.len(),
{
    if s.len() == 0 {
        0
    } else {
        count_nonzero(s.drop_last()) + if s.last() != 0u8 {
            1nat
        } else {
            0nat
        }
    }
}

/// A prefix never has more non-zero bytes than the whole.
pub proof fn lemma_count_nonzero_prefix(s: Seq<u8>, i: int)
    requires
        0 <= i <= s.len(),
    ensures
        count_nonzero(s.take(i)) <= count_nonzero(s),
        count_nonzero(s) <= s.len(),
    decreases s.len(),
{
    if s.len() > 0 {
        lemma_count_nonzero_prefix(s.drop_last(), if i < s.len() { i } else { 0 });
        if i < s.len() {
            assert(s.drop_last().take(i) =~= s.take(i));
        } else {
            assert(s.take(i) =~= s);
        }
    }
}

/// `s` with each run of spaces shortened to one space.
pub open spec fn squeeze_spaces(s: Seq<u8>) -> Seq<u8>
    decreases s.len(),
{
    if s.len() <= 1 {
        s
    } else if s.last() == 32u8 && s[s.len() - 2] == 32u8 {
        squeeze_spaces(s.drop_last())
    } else {
        squeeze_spaces(s.drop_last()).push(s.last())
    }
}

/// Squeezing never lengthens.
pub proof fn lemma_squeeze_len(s: Seq<u8>)
    ensures
        squeeze_spaces(s).len() <= s.len(),
    decreases s.len(),
{
    if s.len() > 1 {
        lemma_squeeze_len(s.drop_last());
    }
}

} // verus!
