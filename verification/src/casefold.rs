//! Case folding and word-character classification.
//!
//! Matching is case-insensitive: both the query and the candidate are folded
//! to lower case, character by character, before any comparison. The folded
//! form of a character and its alphanumeric classification are computed by
//! std; both depend on the character alone, so each gets a name that the
//! contracts speak of.

use vstd::prelude::*;

verus! {

/// The case-folded (lower-case) form of a single character.
pub uninterp spec fn fold_char(c: char) -> char;

/// Whether a character counts as alphanumeric for word-boundary detection.
pub uninterp spec fn is_word_char(c: char) -> bool;

/// The case-folded form of a whole character sequence: folding is applied
/// character by character.
pub open spec fn folded(s: Seq<char>) -> Seq<char> {
    s.map_values(|c: char| fold_char(c))
}

/// Relies on `char::to_lowercase` from std: the lower-case form of a
/// character depends on that character alone. Where the lower-case form
/// spans several characters, its first character stands for it.
#[verifier::external_body]
fn fold_char_exec(c: char) -> (r: char)
    ensures
        r == fold_char(c),
{
    c.to_lowercase().next().unwrap_or(c)
}

/// Relies on `char::is_alphanumeric` from std: whether a character is
/// alphanumeric depends on that character alone.
#[verifier::external_body]
pub(crate) fn is_word_char_exec(c: char) -> (r: bool)
    ensures
        r == is_word_char(c),
{
    c.is_alphanumeric()
}

/// Case-folds a string into its sequence of characters.
pub fn fold_str(s: &str) -> (r: Vec<char>)
    ensures
        r@ == folded(s@),
{
    let n: usize = s.unicode_len();
    let mut out: Vec<char> = Vec::new();
    let mut i: usize = 0;
    while i < n
        invariant
            i <= n,
            n == s@.len(),
            out@ == folded(s@.take(i as int)),
        decreases n - i,
    {
        let c = s.get_char(i);
        out.push(fold_char_exec(c));
        i = i + 1;
        proof {
            assert(s@.take(i as int).drop_last() =~= s@.take(i as int - 1));
            assert(s@.take(i as int).last() == s@[i as int - 1]);
            assert(out@ =~= folded(s@.take(i as int)));
        }
    }
    proof {
        assert(s@.take(n as int) =~= s@);
    }
    out
}

} // verus!
