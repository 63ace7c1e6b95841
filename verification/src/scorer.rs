//! The fuzzy subsequence scorer.
//!
//! A query matches a candidate when every query character occurs, in order,
//! within the candidate (an *alignment*: one choice of strictly increasing
//! candidate positions, one per query character). Each alignment earns a
//! fixed base gain per matched character, a bonus for characters matched
//! immediately after the previous match, a bonus for characters that begin a
//! word, and a penalty per candidate character skipped between two matches.
//! The scorer returns the maximum gain over all alignments, or nothing when
//! no alignment exists. Comparison is case-insensitive: both strings are
//! folded before matching.

use vstd::prelude::*;
use crate::casefold::{folded, fold_str, is_word_char, is_word_char_exec};

verus! {

/// The fixed gain contributed by every matched character.
pub const MATCH_BASE: u32 = 16;

/// Tunable bonuses and penalty of the scorer, fixed for a run.
#[derive(Clone, Copy)]
pub struct Scoring {
    /// Added for a matched character immediately adjacent, in the candidate,
    /// to the previously matched character.
    pub consecutive_bonus: u32,
    /// Added for a matched character that begins a word in the candidate.
    pub word_start_bonus: u32,
    /// Subtracted once per candidate character skipped between two
    /// consecutive matched characters.
    pub distance_penalty: u32,
}

/// Whether position `j` of `c` begins a word: it is the first position, or
/// the previous character is not alphanumeric.
pub open spec fn word_start(c: Seq<char>, j: int) -> bool {
    j == 0 || !is_word_char(c[j - 1])
}

/// The gain of the first matched character of an alignment, at candidate
/// position `j`: the base, plus the word-start bonus if one applies.
pub open spec fn start_gain(c: Seq<char>, g: Scoring, j: int) -> int {
    MATCH_BASE + if word_start(c, j) {
        g.word_start_bonus as int
    } else {
        0
    }
}

/// The gain of a later matched character at candidate position `j`, whose
/// predecessor was matched at position `jp < j`: the base, the word-start
/// bonus if one applies, the consecutive bonus when the two positions are
/// adjacent, minus the penalty for each skipped candidate position.
pub open spec fn step_gain(c: Seq<char>, g: Scoring, jp: int, j: int) -> int {
    MATCH_BASE + (if word_start(c, j) {
        g.word_start_bonus as int
    } else {
        0
    }) + (if jp == j - 1 {
        g.consecutive_bonus as int
    } else {
        0
    }) - g.distance_penalty * (j - jp - 1)
}

/// An alignment of the whole query `q` into the candidate `c`: strictly
/// increasing candidate positions, one per query character, each matching.
pub open spec fn is_alignment(q: Seq<char>, c: Seq<char>, a: Seq<int>) -> bool {
    &&& a.len() == q.len()
    &&& forall|i: int| 0 <= i < a.len() ==> 0 <= #[trigger] a[i] < c.len() && q[i] == c[a[i]]
    &&& forall|i: int| 0 < i < a.len() ==> a[i - 1] < #[trigger] a[i]
}

/// Whether `q` occurs as a subsequence of `c`: some alignment places every
/// character of `q`, in order and without reuse, on an equal character of
/// `c`. Callers fold both sequences first when matching is to ignore case.
pub open spec fn matches_subseq(q: Seq<char>, c: Seq<char>) -> bool {
    exists|a: Seq<int>| is_alignment(q, c, a)
}

/// A partial alignment: the first `n >= 1` query characters are aligned,
/// and the last of them at candidate position `j`.
pub open spec fn is_palign(q: Seq<char>, c: Seq<char>, a: Seq<int>, n: int, j: int) -> bool {
    &&& a.len() == n
    &&& 1 <= n <= q.len()
    &&& forall|i: int| 0 <= i < a.len() ==> 0 <= #[trigger] a[i] < c.len() && q[i] == c[a[i]]
    &&& forall|i: int| 0 < i < a.len() ==> a[i - 1] < #[trigger] a[i]
    &&& a[n - 1] == j
}

/// The total gain of an alignment (full or partial): the start gain of its
/// first position, plus one step gain per later position.
pub open spec fn align_gain(c: Seq<char>, g: Scoring, a: Seq<int>) -> int
    decreases a.len(),
{
    if a.len() == 0 {
        0
    } else if a.len() == 1 {
        start_gain(c, g, a[0])
    } else {
        align_gain(c, g, a.drop_last()) + step_gain(c, g, a[a.len() - 2], a[a.len() - 1])
    }
}

/// The larger of two optional gains; absence loses to any value.
pub open spec fn omax(x: Option<int>, y: Option<int>) -> Option<int> {
    match (x, y) {
        (Some(a), Some(b)) => if a >= b {
            Some(a)
        } else {
            Some(b)
        },
        (Some(a), None) => Some(a),
        (None, Some(b)) => Some(b),
        (None, None) => None,
    }
}

/// The best gain over partial alignments of the first `i` query characters
/// whose last match sits exactly at candidate position `j`; `None` when no
/// such partial alignment exists.
pub open spec fn opt_end(q: Seq<char>, c: Seq<char>, g: Scoring, i: int, j: int) -> Option<int>
    decreases i, 1int, 0int,
{
    if 1 <= i <= q.len() && 0 <= j < c.len() && q[i - 1] == c[j] {
        if i == 1 {
            Some(start_gain(c, g, j))
        } else {
            opt_trans(q, c, g, i, j, j)
        }
    } else {
        None
    }
}

/// The best gain over partial alignments of the first `i >= 2` query
/// characters ending at candidate position `j` whose second-to-last match
/// sits at some position below `k`.
pub open spec fn opt_trans(
    q: Seq<char>,
    c: Seq<char>,
    g: Scoring,
    i: int,
    j: int,
    k: int,
) -> Option<int>
    decreases i, 0int, k,
{
    if k <= 0 || i <= 1 {
        None
    } else {
        omax(
            opt_trans(q, c, g, i, j, k - 1),
            match opt_end(q, c, g, i - 1, k - 1) {
                Some(s) => Some(s + step_gain(c, g, k - 1, j)),
                None => None,
            },
        )
    }
}

/// The best gain over full alignments whose last match sits at some
/// candidate position below `k`.
pub open spec fn opt_best(q: Seq<char>, c: Seq<char>, g: Scoring, k: int) -> Option<int>
    decreases k,
{
    if k <= 0 {
        None
    } else {
        omax(opt_best(q, c, g, k - 1), opt_end(q, c, g, q.len() as int, k - 1))
    }
}

/// The score of `q` against `c`: zero for an empty query, otherwise the
/// best gain over all alignments, or `None` when no alignment exists.
/// Both arguments are expected already folded.
pub open spec fn best_fuzzy(q: Seq<char>, c: Seq<char>, g: Scoring) -> Option<int> {
    if q.len() == 0 {
        Some(0)
    } else {
        opt_best(q, c, g, c.len() as int)
    }
}

/// Whether the executable optional score `r` denotes the mathematical
/// optional gain `s`.
pub open spec fn opt_eq(r: Option<i128>, s: Option<int>) -> bool {
    match (r, s) {
        (Some(v), Some(w)) => v as int == w,
        (None, None) => true,
        _ => false,
    }
}

/// Dropping the last position of a partial alignment of `i >= 2` characters
/// leaves a partial alignment, and removes exactly one step gain.
proof fn lemma_palign_decompose(q: Seq<char>, c: Seq<char>, g: Scoring, a: Seq<int>, i: int, j: int)
    requires
        is_palign(q, c, a, i, j),
        i >= 2,
    ensures
        is_palign(q, c, a.drop_last(), i - 1, a[i - 2]),
        align_gain(c, g, a) == align_gain(c, g, a.drop_last()) + step_gain(c, g, a[i - 2], j),
        a[i - 2] < j,
{
    let ad = a.drop_last();
    assert(ad.len() == i - 1);
    assert(forall|t: int| 0 <= t < ad.len() ==> ad[t] == #[trigger] a[t]);
    assert(ad[i - 2] == a[i - 2]);
    assert(a[i - 2] < a[i - 1]);
    assert(a[i - 1] == j);
    assert(align_gain(c, g, a) == align_gain(c, g, ad) + step_gain(c, g, a[i - 2], a[i - 1]));
}

/// Extending a partial alignment with a later matching position keeps it a
/// partial alignment, and adds exactly one step gain.
proof fn lemma_palign_extend(
    q: Seq<char>,
    c: Seq<char>,
    g: Scoring,
    w: Seq<int>,
    i: int,
    j: int,
    jp: int,
)
    requires
        is_palign(q, c, w, i - 1, jp),
        2 <= i <= q.len(),
        jp < j,
        0 <= j < c.len(),
        q[i - 1] == c[j],
    ensures
        is_palign(q, c, w.push(j), i, j),
        align_gain(c, g, w.push(j)) == align_gain(c, g, w) + step_gain(c, g, jp, j),
        w.push(j)[i - 2] == jp,
{
    let wp = w.push(j);
    assert(wp.len() == i);
    assert(forall|t: int| 0 <= t < w.len() ==> wp[t] == #[trigger] w[t]);
    assert(wp[i - 1] == j);
    assert(wp[i - 2] == w[i - 2]);
    assert(w[i - 2] == jp);
    assert(wp.drop_last() =~= w);
    assert(align_gain(c, g, wp) == align_gain(c, g, w) + step_gain(c, g, wp[i - 2], wp[i - 1]));
}

/// The gain of any partial alignment is at most the base and both bonuses
/// per matched character, and at least the accumulated penalty, which never
/// exceeds the penalty rate times the last matched position.
proof fn lemma_align_gain_bounds(c: Seq<char>, g: Scoring, a: Seq<int>)
    requires
        a.len() >= 1,
        forall|i: int| 0 <= i < a.len() ==> 0 <= #[trigger] a[i] < c.len(),
        forall|i: int| 0 < i < a.len() ==> a[i - 1] < #[trigger] a[i],
    ensures
        align_gain(c, g, a) <= a.len() * (MATCH_BASE + g.word_start_bonus + g.consecutive_bonus),
        align_gain(c, g, a) >= -(g.distance_penalty * a[a.len() - 1]),
    decreases a.len(),
{
    let b: int = MATCH_BASE + g.word_start_bonus + g.consecutive_bonus;
    let dp: int = g.distance_penalty as int;
    let n = a.len() as int;
    if a.len() == 1 {
        assert(align_gain(c, g, a) == start_gain(c, g, a[0]));
        assert(start_gain(c, g, a[0]) <= b);
        assert(dp * a[0] >= 0) by (nonlinear_arith)
            requires
                dp >= 0,
                a[0int] >= 0,
        ;
    } else {
        let ad = a.drop_last();
        assert(forall|t: int| 0 <= t < ad.len() ==> ad[t] == #[trigger] a[t]);
        lemma_align_gain_bounds(c, g, ad);
        let last = a[n - 1];
        let prevp = a[n - 2];
        assert(prevp < last);
        assert(align_gain(c, g, a) == align_gain(c, g, ad) + step_gain(c, g, prevp, last));
        let gap = last - prevp - 1;
        assert(dp * gap >= 0) by (nonlinear_arith)
            requires
                dp >= 0,
                gap >= 0,
        ;
        assert(step_gain(c, g, prevp, last) <= b);
        assert(align_gain(c, g, ad) <= (n - 1) * b);
        assert((n - 1) * b + b == n * b) by (nonlinear_arith);
        assert(align_gain(c, g, ad) >= -(dp * ad[ad.len() - 1]));
        assert(ad[ad.len() - 1] == prevp);
        assert(step_gain(c, g, prevp, last) >= -(dp * gap));
        assert(dp * prevp + dp * gap == dp * (last - 1)) by (nonlinear_arith)
            requires
                gap == last - prevp - 1,
        ;
        assert(dp * (last - 1) <= dp * last) by (nonlinear_arith)
            requires
                dp >= 0,
        ;
    }
}

/// `opt_trans(q, c, g, i, j, k)` is exactly the best gain over partial
/// alignments of the first `i` query characters that end at `j` and whose
/// second-to-last position lies below `k`.
proof fn lemma_opt_trans_chr(q: Seq<char>, c: Seq<char>, g: Scoring, i: int, j: int, k: int)
    requires
        2 <= i <= q.len(),
        0 <= j < c.len(),
        0 <= k <= j,
        q[i - 1] == c[j],
    ensures
        match opt_trans(q, c, g, i, j, k) {
            Some(s) => (exists|a: Seq<int>|
                is_palign(q, c, a, i, j) && a[i - 2] < k && align_gain(c, g, a) == s) && (forall|
                a: Seq<int>,
            |
                is_palign(q, c, a, i, j) && a[i - 2] < k ==> align_gain(c, g, a) <= s),
            None => forall|a: Seq<int>| !(is_palign(q, c, a, i, j) && a[i - 2] < k),
        },
    decreases i, 0int, k,
{
    if k == 0 {
        assert forall|a: Seq<int>| !(is_palign(q, c, a, i, j) && a[i - 2] < 0) by {
            if is_palign(q, c, a, i, j) {
                assert(0 <= a[i - 2]);
            }
        }
    } else {
        lemma_opt_trans_chr(q, c, g, i, j, k - 1);
        lemma_opt_end_chr(q, c, g, i - 1, k - 1);
        let tail = opt_trans(q, c, g, i, j, k - 1);
        let stepv = opt_end(q, c, g, i - 1, k - 1);
        let m = opt_trans(q, c, g, i, j, k);
        // Upper bound: every admissible alignment is covered by one branch.
        if m is Some {
            let s = m->0;
            assert forall|a: Seq<int>|
                is_palign(q, c, a, i, j) && a[i - 2] < k implies align_gain(c, g, a) <= s by {
                if a[i - 2] < k - 1 {
                    assert(tail is Some && align_gain(c, g, a) <= tail->0);
                    assert(tail->0 <= s);
                } else {
                    assert(a[i - 2] == k - 1);
                    lemma_palign_decompose(q, c, g, a, i, j);
                    assert(is_palign(q, c, a.drop_last(), i - 1, k - 1));
                    assert(stepv is Some);
                    assert(align_gain(c, g, a.drop_last()) <= stepv->0);
                    assert(align_gain(c, g, a) <= stepv->0 + step_gain(c, g, k - 1, j));
                }
            }
            // The value is attained by some admissible alignment.
            if tail is Some && s == tail->0 {
                let w = choose|a: Seq<int>|
                    is_palign(q, c, a, i, j) && a[i - 2] < k - 1 && align_gain(c, g, a)
                        == tail->0;
                assert(is_palign(q, c, w, i, j) && w[i - 2] < k && align_gain(c, g, w) == s);
            } else {
                assert(stepv is Some && s == stepv->0 + step_gain(c, g, k - 1, j));
                let w = choose|a: Seq<int>|
                    is_palign(q, c, a, i - 1, k - 1) && align_gain(c, g, a) == stepv->0;
                lemma_palign_extend(q, c, g, w, i, j, k - 1);
                assert(is_palign(q, c, w.push(j), i, j) && w.push(j)[i - 2] < k);
                assert(align_gain(c, g, w.push(j)) == s);
            }
        } else {
            assert(tail is None && stepv is None);
            assert forall|a: Seq<int>| !(is_palign(q, c, a, i, j) && a[i - 2] < k) by {
                if is_palign(q, c, a, i, j) && a[i - 2] < k {
                    if a[i - 2] < k - 1 {
                        assert(!(is_palign(q, c, a, i, j) && a[i - 2] < k - 1));
                    } else {
                        assert(a[i - 2] == k - 1);
                        lemma_palign_decompose(q, c, g, a, i, j);
                        assert(!is_palign(q, c, a.drop_last(), i - 1, k - 1));
                    }
                }
            }
        }
    }
}

/// `opt_end(q, c, g, i, j)` is exactly the best gain over partial
/// alignments of the first `i` query characters whose last match sits at
/// candidate position `j`.
proof fn lemma_opt_end_chr(q: Seq<char>, c: Seq<char>, g: Scoring, i: int, j: int)
    requires
        1 <= i <= q.len(),
        0 <= j < c.len(),
    ensures
        match opt_end(q, c, g, i, j) {
            Some(s) => (exists|a: Seq<int>| is_palign(q, c, a, i, j) && align_gain(c, g, a) == s)
                && (forall|a: Seq<int>|
                is_palign(q, c, a, i, j) ==> align_gain(c, g, a) <= s),
            None => forall|a: Seq<int>| !is_palign(q, c, a, i, j),
        },
    decreases i, 1int, 0int,
{
    if q[i - 1] != c[j] {
        assert forall|a: Seq<int>| !is_palign(q, c, a, i, j) by {
            if is_palign(q, c, a, i, j) {
                assert(a[i - 1] == j);
                assert(q[i - 1] == c[a[i - 1]]);
            }
        }
    } else if i == 1 {
        let w = seq![j];
        assert(w[0] == j);
        assert(is_palign(q, c, w, 1, j));
        assert(align_gain(c, g, w) == start_gain(c, g, j));
        assert forall|a: Seq<int>|
            is_palign(q, c, a, 1, j) implies align_gain(c, g, a) <= start_gain(c, g, j) by {
            assert(a.len() == 1);
            assert(a[0] == j);
            assert(align_gain(c, g, a) == start_gain(c, g, j));
        }
    } else {
        lemma_opt_trans_chr(q, c, g, i, j, j);
        match opt_trans(q, c, g, i, j, j) {
            Some(s) => {
                let w = choose|a: Seq<int>|
                    is_palign(q, c, a, i, j) && a[i - 2] < j && align_gain(c, g, a) == s;
                assert(is_palign(q, c, w, i, j) && align_gain(c, g, w) == s);
                assert forall|a: Seq<int>|
                    is_palign(q, c, a, i, j) implies align_gain(c, g, a) <= s by {
                    assert(a[i - 2] < a[i - 1]);
                    assert(a[i - 1] == j);
                }
            },
            None => {
                assert forall|a: Seq<int>| !is_palign(q, c, a, i, j) by {
                    if is_palign(q, c, a, i, j) {
                        assert(a[i - 2] < a[i - 1]);
                        assert(a[i - 1] == j);
                        assert(!(is_palign(q, c, a, i, j) && a[i - 2] < j));
                    }
                }
            },
        }
    }
}

/// `opt_best(q, c, g, k)` is exactly the best gain over full alignments
/// whose last match sits below candidate position `k`.
proof fn lemma_opt_best_chr(q: Seq<char>, c: Seq<char>, g: Scoring, k: int)
    requires
        q.len() >= 1,
        0 <= k <= c.len(),
    ensures
        match opt_best(q, c, g, k) {
            Some(s) => (exists|a: Seq<int>|
                is_alignment(q, c, a) && a[q.len() - 1] < k && align_gain(c, g, a) == s) && (forall|
                a: Seq<int>,
            |
                is_alignment(q, c, a) && a[q.len() - 1] < k ==> align_gain(c, g, a) <= s),
            None => forall|a: Seq<int>| !(is_alignment(q, c, a) && a[q.len() - 1] < k),
        },
    decreases k,
{
    let n = q.len() as int;
    if k <= 0 {
        assert forall|a: Seq<int>| !(is_alignment(q, c, a) && a[n - 1] < k) by {
            if is_alignment(q, c, a) {
                assert(0 <= a[n - 1]);
            }
        }
    } else {
        lemma_opt_best_chr(q, c, g, k - 1);
        lemma_opt_end_chr(q, c, g, n, k - 1);
        let tail = opt_best(q, c, g, k - 1);
        let endv = opt_end(q, c, g, n, k - 1);
        let m = opt_best(q, c, g, k);
        if m is Some {
            let s = m->0;
            assert forall|a: Seq<int>|
                is_alignment(q, c, a) && a[n - 1] < k implies align_gain(c, g, a) <= s by {
                if a[n - 1] < k - 1 {
                    assert(tail is Some && align_gain(c, g, a) <= tail->0);
                } else {
                    assert(a[n - 1] == k - 1);
                    assert(is_palign(q, c, a, n, k - 1));
                    assert(endv is Some && align_gain(c, g, a) <= endv->0);
                }
            }
            if tail is Some && s == tail->0 {
                let w = choose|a: Seq<int>|
                    is_alignment(q, c, a) && a[n - 1] < k - 1 && align_gain(c, g, a) == tail->0;
                assert(is_alignment(q, c, w) && w[n - 1] < k && align_gain(c, g, w) == s);
            } else {
                assert(endv is Some && s == endv->0);
                let w = choose|a: Seq<int>|
                    is_palign(q, c, a, n, k - 1) && align_gain(c, g, a) == endv->0;
                assert(is_alignment(q, c, w));
                assert(w[n - 1] == k - 1);
            }
        } else {
            assert(tail is None && endv is None);
            assert forall|a: Seq<int>| !(is_alignment(q, c, a) && a[n - 1] < k) by {
                if is_alignment(q, c, a) && a[n - 1] < k {
                    if a[n - 1] < k - 1 {
                        assert(!(is_alignment(q, c, a) && a[n - 1] < k - 1));
                    } else {
                        assert(a[n - 1] == k - 1);
                        assert(is_palign(q, c, a, n, k - 1));
                        assert(!is_palign(q, c, a, n, k - 1));
                    }
                }
            }
        }
    }
}

/// The law of the scorer: `best_fuzzy` is present exactly when an alignment
/// exists, and then it is the maximum gain over all alignments — attained by
/// one of them, and at least the gain of every other.
pub proof fn lemma_best_fuzzy(q: Seq<char>, c: Seq<char>, g: Scoring)
    ensures
        match best_fuzzy(q, c, g) {
            Some(s) => (exists|a: Seq<int>| is_alignment(q, c, a) && align_gain(c, g, a) == s)
                && (forall|a: Seq<int>|
                is_alignment(q, c, a) ==> align_gain(c, g, a) <= s),
            None => !matches_subseq(q, c),
        },
        (best_fuzzy(q, c, g) is Some) <==> matches_subseq(q, c),
{
    if q.len() == 0 {
        let w = Seq::<int>::empty();
        assert(is_alignment(q, c, w));
        assert(align_gain(c, g, w) == 0);
        assert forall|a: Seq<int>| is_alignment(q, c, a) implies align_gain(c, g, a) <= 0 by {
            assert(a.len() == 0);
        }
    } else {
        let n = q.len() as int;
        lemma_opt_best_chr(q, c, g, c.len() as int);
        match opt_best(q, c, g, c.len() as int) {
            Some(s) => {
                assert forall|a: Seq<int>|
                    is_alignment(q, c, a) implies align_gain(c, g, a) <= s by {
                    assert(a[n - 1] < c.len());
                }
            },
            None => {
                assert forall|a: Seq<int>| !is_alignment(q, c, a) by {
                    if is_alignment(q, c, a) {
                        assert(a[n - 1] < c.len());
                        assert(!(is_alignment(q, c, a) && a[n - 1] < c.len()));
                    }
                }
            },
        }
    }
}

/// A contiguous alignment starting at position `p` gains at least the base
/// for each of its characters: adjacent matches skip nothing, so no penalty
/// accrues, and every bonus only adds.
proof fn lemma_contiguous_gain(c: Seq<char>, g: Scoring, p: int, n: int)
    requires
        1 <= n,
        0 <= p,
        p + n <= c.len(),
    ensures
        align_gain(c, g, Seq::new(n as nat, |i: int| p + i)) >= n * MATCH_BASE,
    decreases n,
{
    let a = Seq::new(n as nat, |i: int| p + i);
    if n == 1 {
        assert(align_gain(c, g, a) == start_gain(c, g, p));
    } else {
        lemma_contiguous_gain(c, g, p, n - 1);
        let ad = Seq::new((n - 1) as nat, |i: int| p + i);
        assert(a.drop_last() =~= ad);
        assert(a[n - 2] == p + n - 2 && a[n - 1] == p + n - 1);
        assert((p + n - 1) - (p + n - 2) - 1 == 0);
        assert(g.distance_penalty * 0 == 0) by (nonlinear_arith);
        assert(step_gain(c, g, p + n - 2, p + n - 1) >= MATCH_BASE);
        assert((n - 1) * MATCH_BASE + MATCH_BASE == n * MATCH_BASE) by (nonlinear_arith);
    }
}

/// The law of literal substrings: a non-empty query that occurs literally
/// as a contiguous run of the candidate always matches — the scorer returns
/// a present value, at least the base gain per query character. Folding is
/// applied per character, so a literal substring stays a substring after
/// folding.
pub proof fn lemma_substring_matches(q: Seq<char>, c: Seq<char>, g: Scoring, p: int)
    requires
        q.len() >= 1,
        0 <= p,
        p + q.len() <= c.len(),
        forall|i: int| 0 <= i < q.len() ==> q[i] == c[p + i],
    ensures
        best_fuzzy(folded(q), folded(c), g) is Some,
        best_fuzzy(folded(q), folded(c), g)->0 >= q.len() * MATCH_BASE,
        matches_subseq(folded(q), folded(c)),
{
    let qs = folded(q);
    let cs = folded(c);
    let w = Seq::new(q.len(), |i: int| p + i);
    assert forall|i: int|
        0 <= i < w.len() implies 0 <= #[trigger] w[i] < cs.len() && qs[i] == cs[w[i]] by {
        assert(q[i] == c[p + i]);
    }
    assert(is_alignment(qs, cs, w));
    lemma_contiguous_gain(cs, g, p, q.len() as int);
    lemma_best_fuzzy(qs, cs, g);
}

/// Bounds on any attained cell value, used to rule out overflow: at most
/// the base and both bonuses per query character, and at least the penalty
/// rate over the whole candidate.
proof fn lemma_opt_end_value_bounds(q: Seq<char>, c: Seq<char>, g: Scoring, i: int, j: int)
    requires
        1 <= i <= q.len(),
        0 <= j < c.len(),
        opt_end(q, c, g, i, j) is Some,
    ensures
        opt_end(q, c, g, i, j)->0 <= q.len() * (MATCH_BASE + g.word_start_bonus
            + g.consecutive_bonus),
        opt_end(q, c, g, i, j)->0 >= -(g.distance_penalty * c.len()),
{
    lemma_opt_end_chr(q, c, g, i, j);
    let s = opt_end(q, c, g, i, j)->0;
    let w = choose|a: Seq<int>| is_palign(q, c, a, i, j) && align_gain(c, g, a) == s;
    lemma_align_gain_bounds(c, g, w);
    let b: int = MATCH_BASE + g.word_start_bonus + g.consecutive_bonus;
    assert(w.len() * b <= q.len() * b) by (nonlinear_arith)
        requires
            b >= 0,
            w.len() <= q.len(),
    ;
    assert(w[w.len() - 1] == j);
    assert(g.distance_penalty * j <= g.distance_penalty * c.len()) by (nonlinear_arith)
        requires
            g.distance_penalty >= 0,
            j <= c.len(),
    ;
}

/// Whether position `j` of the folded candidate begins a word.
fn word_start_exec(cf: &Vec<char>, j: usize) -> (r: bool)
    requires
        j < cf@.len(),
    ensures
        r == word_start(cf@, j as int),
{
    if j == 0 {
        true
    } else {
        !is_word_char_exec(cf[j - 1])
    }
}

/// The step gain for a match at position `j` following a match at `k < j`.
fn step_gain_exec(cf: &Vec<char>, g: &Scoring, k: usize, j: usize) -> (d: i128)
    requires
        k < j,
        j < cf@.len(),
    ensures
        d as int == step_gain(cf@, *g, k as int, j as int),
        -0x2_0000_0000_0000_0000_0000_0000i128 <= d <= 0x2_0000_0000_0000_0000_0000_0000i128,
{
    let ws = word_start_exec(cf, j);
    let bonus: i128 = MATCH_BASE as i128 + (if ws {
        g.word_start_bonus as i128
    } else {
        0
    }) + (if k + 1 == j {
        g.consecutive_bonus as i128
    } else {
        0
    });
    let gap: i128 = (j - k - 1) as i128;
    proof {
        assert((g.distance_penalty as i128) * gap <= 0x1_0000_0000_0000_0000_0000_0000int
            && (g.distance_penalty as i128) * gap >= 0) by (nonlinear_arith)
            requires
                0 <= g.distance_penalty as i128 <= 0x1_0000_0000int,
                0 <= gap <= 0x1_0000_0000_0000_0000int,
        ;
    }
    bonus - (g.distance_penalty as i128) * gap
}

/// Scores `query` against `candidate`: case-insensitive subsequence
/// matching, maximised over every alignment.
///
/// The result is `Some` exactly when the folded query occurs as a
/// subsequence of the folded candidate, and then holds the maximum gain
/// over all alignments; an empty query scores zero against any candidate.
pub fn score(query: &str, candidate: &str, config: &Scoring) -> (r: Option<i128>)
    ensures
        opt_eq(r, best_fuzzy(folded(query@), folded(candidate@), *config)),
        (r is Some) <==> matches_subseq(folded(query@), folded(candidate@)),
        query@.len() == 0 ==> r == Some(0i128),
{
    let ghost qs = folded(query@);
    let ghost cs = folded(candidate@);
    let cfg = *config;
    let qf = fold_str(query);
    let cf = fold_str(candidate);
    let qn = qf.len();
    let cn = cf.len();
    proof {
        lemma_best_fuzzy(qs, cs, cfg);
    }
    if qn == 0 {
        return Some(0);
    }
    let ghost bound_hi: int = qs.len() * (MATCH_BASE + cfg.word_start_bonus
        + cfg.consecutive_bonus);
    let ghost bound_lo: int = -(cfg.distance_penalty * cs.len());
    proof {
        assert(bound_hi <= 0x1_0000_0000_0000_0000_0000_0000_0000int && bound_lo
            >= -0x1_0000_0000_0000_0000_0000_0000_0000int) by (nonlinear_arith)
            requires
                bound_hi == qs.len() * (MATCH_BASE + cfg.word_start_bonus
                    + cfg.consecutive_bonus),
                bound_lo == -(cfg.distance_penalty * cs.len()),
                qs.len() <= 0x1_0000_0000_0000_0000int,
                cs.len() <= 0x1_0000_0000_0000_0000int,
                MATCH_BASE + cfg.word_start_bonus + cfg.consecutive_bonus
                    <= 0x3_0000_0000int,
                cfg.distance_penalty <= 0x1_0000_0000int,
        ;
    }
    // Row for the first query character.
    let mut prev: Vec<Option<i128>> = Vec::new();
    let mut j: usize = 0;
    while j < cn
        invariant
            j <= cn,
            qn >= 1,
            qf@ == qs,
            cf@ == cs,
            qn == qs.len(),
            cn == cs.len(),
            prev@.len() == j,
            forall|t: int| 0 <= t < j ==> opt_eq(#[trigger] prev@[t], opt_end(qs, cs, cfg, 1, t)),
        decreases cn - j,
    {
        let cell: Option<i128> = if qf[0] == cf[j] {
            let ws = word_start_exec(&cf, j);
            let v: i128 = MATCH_BASE as i128 + (if ws {
                cfg.word_start_bonus as i128
            } else {
                0
            });
            proof {
                assert(v as int == start_gain(cs, cfg, j as int));
            }
            Some(v)
        } else {
            None
        };
        prev.push(cell);
        j += 1;
    }
    // One row per further query character.
    let mut qi: usize = 1;
    while qi < qn
        invariant
            1 <= qi <= qn,
            qf@ == qs,
            cf@ == cs,
            qn == qs.len(),
            cn == cs.len(),
            prev@.len() == cn,
            bound_hi == qs.len() * (MATCH_BASE + cfg.word_start_bonus + cfg.consecutive_bonus),
            bound_lo == -(cfg.distance_penalty * cs.len()),
            bound_hi <= 0x1_0000_0000_0000_0000_0000_0000_0000int,
            bound_lo >= -0x1_0000_0000_0000_0000_0000_0000_0000int,
            forall|t: int|
                0 <= t < cn ==> opt_eq(#[trigger] prev@[t], opt_end(qs, cs, cfg, qi as int, t)),
        decreases qn - qi,
    {
        let mut cur: Vec<Option<i128>> = Vec::new();
        let mut j: usize = 0;
        while j < cn
            invariant
                j <= cn,
                1 <= qi < qn,
                qf@ == qs,
                cf@ == cs,
                qn == qs.len(),
                cn == cs.len(),
                prev@.len() == cn,
                bound_hi == qs.len() * (MATCH_BASE + cfg.word_start_bonus
                    + cfg.consecutive_bonus),
                bound_lo == -(cfg.distance_penalty * cs.len()),
                bound_hi <= 0x1_0000_0000_0000_0000_0000_0000_0000int,
                bound_lo >= -0x1_0000_0000_0000_0000_0000_0000_0000int,
                forall|t: int|
                    0 <= t < cn ==> opt_eq(
                        #[trigger] prev@[t],
                        opt_end(qs, cs, cfg, qi as int, t),
                    ),
                cur@.len() == j,
                forall|t: int|
                    0 <= t < j ==> opt_eq(
                        #[trigger] cur@[t],
                        opt_end(qs, cs, cfg, qi as int + 1, t),
                    ),
            decreases cn - j,
        {
            let cell: Option<i128>;
            if qf[qi] == cf[j] {
                let mut acc: Option<i128> = None;
                let mut k: usize = 0;
                while k < j
                    invariant
                        k <= j,
                        j < cn,
                        1 <= qi < qn,
                        qf@ == qs,
                        cf@ == cs,
                        qn == qs.len(),
                        cn == cs.len(),
                        prev@.len() == cn,
                        qs[qi as int] == cs[j as int],
                        bound_hi == qs.len() * (MATCH_BASE + cfg.word_start_bonus
                            + cfg.consecutive_bonus),
                        bound_lo == -(cfg.distance_penalty * cs.len()),
                        bound_hi <= 0x1_0000_0000_0000_0000_0000_0000_0000int,
                        bound_lo >= -0x1_0000_0000_0000_0000_0000_0000_0000int,
                        forall|t: int|
                            0 <= t < cn ==> opt_eq(
                                #[trigger] prev@[t],
                                opt_end(qs, cs, cfg, qi as int, t),
                            ),
                        opt_eq(acc, opt_trans(qs, cs, cfg, qi as int + 1, j as int, k as int)),
                    decreases j - k,
                {
                    match prev[k] {
                        Some(s) => {
                            proof {
                                assert(opt_end(qs, cs, cfg, qi as int, k as int) is Some);
                                lemma_opt_end_value_bounds(qs, cs, cfg, qi as int, k as int);
                                assert(bound_lo <= s as int <= bound_hi);
                            }
                            let d: i128 = step_gain_exec(&cf, &cfg, k, j);
                            let v: i128 = s + d;
                            acc = match acc {
                                Some(b) => if b >= v {
                                    Some(b)
                                } else {
                                    Some(v)
                                },
                                None => Some(v),
                            };
                        },
                        None => {},
                    }
                    k += 1;
                }
                cell = acc;
                proof {
                    assert(opt_end(qs, cs, cfg, qi as int + 1, j as int) == opt_trans(
                        qs,
                        cs,
                        cfg,
                        qi as int + 1,
                        j as int,
                        j as int,
                    ));
                }
            } else {
                cell = None;
                proof {
                    assert(opt_end(qs, cs, cfg, qi as int + 1, j as int) is None);
                }
            }
            cur.push(cell);
            j += 1;
        }
        prev = cur;
        qi += 1;
    }
    // The answer is the best over the last row.
    let mut ans: Option<i128> = None;
    let mut j2: usize = 0;
    while j2 < cn
        invariant
            j2 <= cn,
            1 <= qn,
            cf@ == cs,
            qn == qs.len(),
            cn == cs.len(),
            prev@.len() == cn,
            forall|t: int|
                0 <= t < cn ==> opt_eq(#[trigger] prev@[t], opt_end(qs, cs, cfg, qn as int, t)),
            opt_eq(ans, opt_best(qs, cs, cfg, j2 as int)),
        decreases cn - j2,
    {
        match prev[j2] {
            Some(v) => {
                ans = match ans {
                    Some(b) => if b >= v {
                        Some(b)
                    } else {
                        Some(v)
                    },
                    None => Some(v),
                };
            },
            None => {},
        }
        j2 += 1;
    }
    ans
}

} // verus!
