//! How the buffer's content is cut into segments at delimiters.
use vstd::prelude::*;

verus! {

/// Where a match of the delimiter starts a new segment, and what happens to
/// the matched bytes.
#[derive(Debug, Clone, Copy, PartialEq, Eq, Structural)]
pub enum SplitRule {
    /// A one-byte delimiter, dropped from the segments.
    Drop,
    /// A one-byte delimiter, kept at the end of the segment before it.
    KeepLeft,
    /// A one-byte delimiter, kept at the start of the segment after it.
    KeepRight,
    /// A delimiter of several bytes, dropped; after a match the scan goes on
    /// behind it. An empty delimiter matches before every byte and at the end.
    Text,
    /// As `Text`, but a match directly followed by the sentinel byte does not
    /// count.
    TextUnless,
    /// A one-byte delimiter that counts only between the left and the right
    /// sentinel byte; the delimiter is dropped, the sentinels stay.
    Between,
}

/// The delimiter `d` matches `s` at position `i` under `rule`; `l` and `r`
/// are the sentinel bytes of the rules that use them.
pub open spec fn hit(s: Seq<u8>, rule: SplitRule, d: Seq<u8>, l: u8, r: u8, i: int) -> bool {
    match rule {
        SplitRule::Text => 0 <= i && i + d.len() <= s.len() && s.subrange(i, i + d.len()) == d,
        SplitRule::TextUnless => 0 <= i && i + d.len() <= s.len() && s.subrange(i, i + d.len()) == d
            && (i + d.len() == s.len() || s[i + d.len()] != r),
        SplitRule::Between => d.len() == 1 && 1 <= i && i + 1 < s.len() && s[i] == d[0] && s[i - 1]
            == l && s[i + 1] == r,
        _ => d.len() == 1 && 0 <= i < s.len() && s[i] == d[0],
    }
}

/// End of the segment closed by a match at `i`.
pub open spec fn cut(rule: SplitRule, i: int) -> int {
    match rule {
        SplitRule::KeepLeft => i + 1,
        _ => i,
    }
}

/// Start of the segment opened by a match at `i`.
pub open spec fn restart(rule: SplitRule, d: Seq<u8>, i: int) -> int {
    match rule {
        SplitRule::KeepRight => i,
        SplitRule::Text | SplitRule::TextUnless => i + d.len(),
        _ => i + 1,
    }
}

/// Where the scan goes on after a match at `i`.
pub open spec fn resume(rule: SplitRule, d: Seq<u8>, i: int) -> int {
    match rule {
        SplitRule::Text | SplitRule::TextUnless => if d.len() > 0 {
            i + d.len()
        } else {
            i + 1
        },
        _ => i + 1,
    }
}

/// The segments of `s` from the open segment starting at `start`, scanning
/// from position `i` on (the end of `s` included, where only an empty
/// delimiter can match); the last segment runs to the end of `s`, empty or
/// not.
pub open spec fn scan(
    s: Seq<u8>,
    rule: SplitRule,
    d: Seq<u8>,
    l: u8,
    r: u8,
    start: int,
    i: int,
) -> Seq<Seq<u8>>
    decreases s.len() + 1 - i,
{
    if i < 0 || i > s.len() {
        seq![s.subrange(start, s.len() as int)]
    } else if hit(s, rule, d, l, r, i) {
        seq![s.subrange(start, cut(rule, i))] + scan(
            s,
            rule,
            d,
            l,
            r,
            restart(rule, d, i),
            resume(rule, d, i),
        )
    } else if i == s.len() {
        seq![s.subrange(start, s.len() as int)]
    } else {
        scan(s, rule, d, l, r, start, i + 1)
    }
}

/// All segments of `s` under `rule`.
pub open spec fn segments(s: Seq<u8>, rule: SplitRule, d: Seq<u8>, l: u8, r: u8) -> Seq<Seq<u8>> {
    scan(s, rule, d, l, r, 0, 0)
}

} // verus!
