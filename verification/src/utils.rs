//! Small text helpers for terminal output.
use vstd::prelude::*;
use vstd::utf8::{decode_utf8, encode_utf8, is_char_boundary};
use crate::text::{lowercase_of, str_eq, to_lowercase, trim, trimmed_of};

verus! {

/// Where a string longer than `max_len` bytes is cut: three bytes before
/// the limit, to leave room for the ellipsis.
pub open spec fn cut_point(max_len: usize) -> int {
    if max_len >= 3 {
        max_len - 3
    } else {
        0
    }
}

/// `s` when it fits in `max_len` bytes; otherwise its bytes up to the cut
/// point followed by `...`.
pub open spec fn truncated(s: Seq<char>, max_len: usize) -> Seq<char> {
    let b = encode_utf8(s);
    if b.len() <= max_len {
        s
    } else {
        decode_utf8(b.subrange(0, cut_point(max_len))) + "..."@
    }
}

/// The bytes of `s` can be counted in a `usize`, and when `s` is too long
/// the cut point falls between characters.
pub open spec fn truncatable(s: Seq<char>, max_len: usize) -> bool {
    let b = encode_utf8(s);
    &&& b.len() <= usize::MAX
    &&& b.len() > max_len ==> is_char_boundary(b, cut_point(max_len))
}

/// Shorten `s` to at most `max_len` bytes, marking the cut with `...`.
pub fn truncate_string(s: &str, max_len: usize) -> (r: String)
    requires
        truncatable(s@, max_len),
    ensures
        r@ == truncated(s@, max_len),
{
    if s.len() <= max_len {
        s.to_owned()
    } else {
        let cut = max_len.saturating_sub(3);
        let (head, _) = s.split_at(cut);
        proof {
            vstd::utf8::encode_utf8_decode_utf8(head@);
        }
        head.to_owned().concat("...")
    }
}

/// Whether an answer to a yes/no question means yes: `y` or `yes` in any
/// letter case, ignoring surrounding whitespace.
pub fn is_yes(answer: &str) -> (r: bool)
    ensures
        r == (lowercase_of(trimmed_of(answer@)) == "y"@ || lowercase_of(trimmed_of(answer@)) == "yes"@),
{
    let trimmed = trim(answer);
    let lower = to_lowercase(trimmed.as_str());
    is_yes_word(lower.as_str())
}

/// Whether a trimmed, lowercase answer is `y` or `yes`.
pub fn is_yes_word(lower: &str) -> (r: bool)
    ensures
        r == (lower@ == "y"@ || lower@ == "yes"@),
{
    str_eq(lower, "y") || str_eq(lower, "yes")
}

} // verus!
