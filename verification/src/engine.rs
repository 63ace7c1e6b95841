//! The retrieval engine: scores a query against every corpus entry, selects
//! the entry of maximal rank — the last such entry on ties — and returns
//! one of its responses, chosen at random. A non-matching entry ranks zero
//! rather than being excluded, so the engine always answers on a non-empty
//! index.

use vstd::prelude::*;
use crate::casefold::folded;
use crate::scorer::{Scoring, best_fuzzy, score};
use crate::corpus::{DialogCore, Message, Reply, built};

verus! {

/// The scoring configuration the engine runs with, fixed for a run.
pub open spec fn engine_scoring() -> Scoring {
    Scoring { consecutive_bonus: 128, word_start_bonus: 0, distance_penalty: 1 }
}

/// The numeric rank of one candidate request against a query: its fuzzy
/// score, with "no match" degrading to zero.
pub open spec fn entry_rank(q: Seq<char>, request: Seq<char>, g: Scoring) -> int {
    match best_fuzzy(folded(q), folded(request), g) {
        Some(s) => s,
        None => 0,
    }
}

/// The ranks of every entry of an index against a query, in entry order.
pub open spec fn ranks_of(v: Seq<(Seq<char>, Seq<Seq<char>>)>, q: Seq<char>, g: Scoring) -> Seq<
    int,
> {
    v.map_values(|e: (Seq<char>, Seq<Seq<char>>)| entry_rank(q, e.0, g))
}

/// The index of the last maximum of a sequence of ranks: a later rank
/// replaces the running best whenever it is at least as large.
pub open spec fn pick_last_max(scores: Seq<int>) -> int
    decreases scores.len(),
{
    if scores.len() <= 1 {
        0
    } else {
        let p = pick_last_max(scores.drop_last());
        if scores.last() >= scores[p] {
            scores.len() - 1
        } else {
            p
        }
    }
}

/// The entry the engine selects for a query.
pub open spec fn selected_entry(v: Seq<(Seq<char>, Seq<Seq<char>>)>, q: Seq<char>, g: Scoring) -> int {
    pick_last_max(ranks_of(v, q, g))
}

/// What the engine promises of a reply `s` to a query `q`: `s` is one of
/// the responses of the selected entry.
pub open spec fn response_from(
    v: Seq<(Seq<char>, Seq<Seq<char>>)>,
    q: Seq<char>,
    g: Scoring,
    s: Seq<char>,
) -> bool {
    let kk = selected_entry(v, q, g);
    exists|j: int| 0 <= j < v[kk].1.len() && s == v[kk].1[j]
}

/// The condition under which the engine cannot answer.
#[derive(Debug, PartialEq, Eq)]
pub enum RespondError {
    /// The index holds no entry at all.
    NoCorpusEntries,
}

/// The law of the last maximum: the picked position is in range, no rank
/// exceeds the picked one, and every later rank is strictly below it.
pub proof fn lemma_pick_last_max(scores: Seq<int>)
    requires
        scores.len() >= 1,
    ensures
        0 <= pick_last_max(scores) < scores.len(),
        forall|t: int|
            0 <= t < scores.len() ==> #[trigger] scores[t] <= scores[pick_last_max(scores)],
        forall|t: int|
            pick_last_max(scores) < t < scores.len() ==> #[trigger] scores[t] < scores[
                pick_last_max(scores)],
    decreases scores.len(),
{
    if scores.len() > 1 {
        let sd = scores.drop_last();
        lemma_pick_last_max(sd);
        assert(forall|t: int| 0 <= t < sd.len() ==> #[trigger] sd[t] == scores[t]);
        let p = pick_last_max(sd);
        let me = pick_last_max(scores);
        if scores.last() >= scores[p] {
            assert(me == scores.len() - 1);
            assert forall|t: int| 0 <= t < scores.len() implies #[trigger] scores[t]
                <= scores[me] by {
                if t < sd.len() {
                    assert(sd[t] <= sd[p]);
                }
            }
        } else {
            assert(me == p);
            assert forall|t: int| 0 <= t < scores.len() implies #[trigger] scores[t]
                <= scores[p] by {
                if t < sd.len() {
                    assert(sd[t] <= sd[p]);
                }
            }
            assert forall|t: int| p < t < scores.len() implies #[trigger] scores[t]
                < scores[p] by {
                if t < sd.len() {
                    assert(sd[t] < sd[p]);
                }
            }
        }
    }
}

/// The law of tie-breaking: of two entries with identical request texts,
/// the engine never selects the earlier one, whatever the query.
pub proof fn lemma_tie_break_last(
    v: Seq<(Seq<char>, Seq<Seq<char>>)>,
    q: Seq<char>,
    g: Scoring,
    p: int,
    r: int,
)
    requires
        0 <= p < r < v.len(),
        v[p].0 == v[r].0,
    ensures
        selected_entry(v, q, g) != p,
{
    let ranks = ranks_of(v, q, g);
    assert(ranks[p] == entry_rank(q, v[p].0, g));
    assert(ranks[r] == entry_rank(q, v[r].0, g));
    lemma_pick_last_max(ranks);
    if selected_entry(v, q, g) == p {
        assert(ranks[r] < ranks[p]);
    }
}

/// The law of provenance: whatever satisfies the engine's promise against a
/// built index is the text of one of the ingested replies.
pub proof fn lemma_response_in_corpus(
    messages: Seq<Message>,
    replies: Seq<Reply>,
    q: Seq<char>,
    g: Scoring,
    s: Seq<char>,
)
    requires
        built(messages, replies).len() > 0,
        response_from(built(messages, replies), q, g, s),
    ensures
        exists|t: int| 0 <= t < replies.len() && s == (#[trigger] replies[t]).text@,
{
    let v = built(messages, replies);
    let ranks = ranks_of(v, q, g);
    let kk = selected_entry(v, q, g);
    lemma_pick_last_max(ranks);
    assert(0 <= kk < v.len());
    let j = choose|j: int| 0 <= j < v[kk].1.len() && s == v[kk].1[j];
    crate::corpus::lemma_built_from_replies(messages, replies, kk, j);
}

/// Relies on rand: `Rng::gen_range` over `0..n`, on the generator that
/// `thread_rng` returns, draws an integer uniformly below `n`. The range is
/// non-empty, so the call does not panic; whatever is drawn lies below `n`.
#[verifier::external_body]
fn random_below(n: usize) -> (r: usize)
    requires
        n > 0,
    ensures
        r < n,
{
    rand::Rng::gen_range(&mut rand::thread_rng(), 0..n)
}

/// The executable rank of one candidate request against the query.
fn rank_exec(query: &str, request: &str, g: &Scoring) -> (v: i128)
    ensures
        v as int == entry_rank(query@, request@, *g),
{
    match score(query, request, g) {
        Some(s) => s,
        None => 0,
    }
}

impl DialogCore {
    /// Answers `request`: every entry is ranked against it, the entry of
    /// maximal rank is selected — the last such entry on ties — and one of
    /// its responses is returned, chosen at random.
    pub fn get_response(&self, request: &str) -> (r: String)
        requires
            self.wf(),
            self@.len() > 0,
        ensures
            response_from(self@, request@, engine_scoring(), r@),
    {
        let g = Scoring { consecutive_bonus: 128, word_start_bonus: 0, distance_penalty: 1 };
        proof {
            assert(g == engine_scoring());
        }
        let ghost ranks = ranks_of(self@, request@, engine_scoring());
        let n = self.requests_responses.len();
        proof {
            assert(n == self@.len());
            assert(self@[0].0 == self.requests_responses@[0].request@);
        }
        let mut best_idx: usize = 0;
        let mut best_val: i128 = rank_exec(request, self.requests_responses[0].request.as_str(), &g);
        proof {
            assert(ranks.take(1).len() == 1);
            assert(best_val as int == ranks[0]);
        }
        let mut idx: usize = 1;
        while idx < n
            invariant
                1 <= idx <= n,
                n == self@.len(),
                n == self.requests_responses@.len(),
                self.wf(),
                g == engine_scoring(),
                ranks == ranks_of(self@, request@, engine_scoring()),
                best_idx < idx,
                best_idx as int == pick_last_max(ranks.take(idx as int)),
                best_val as int == ranks[best_idx as int],
            decreases n - idx,
        {
            proof {
                assert(self@[idx as int].0 == self.requests_responses@[idx as int].request@);
            }
            let v = rank_exec(request, self.requests_responses[idx].request.as_str(), &g);
            proof {
                assert(ranks.take(idx as int + 1).drop_last() =~= ranks.take(idx as int));
                assert(ranks.take(idx as int + 1).last() == ranks[idx as int]);
            }
            if v >= best_val {
                best_idx = idx;
                best_val = v;
            }
            idx += 1;
        }
        proof {
            assert(ranks.take(n as int) =~= ranks);
            assert(best_idx as int == selected_entry(self@, request@, engine_scoring()));
        }
        let e = &self.requests_responses[best_idx];
        let m = e.responses.len();
        proof {
            assert(self@[best_idx as int].1 == e.responses.deep_view());
            assert(self@[best_idx as int].1.len() > 0);
        }
        let at = random_below(m);
        let r = e.responses[at].clone();
        proof {
            assert(r@ == self@[best_idx as int].1[at as int]);
        }
        r
    }

    /// Answers `request` when the index holds at least one entry, and
    /// reports the empty index otherwise.
    pub fn try_get_response(&self, request: &str) -> (r: Result<String, RespondError>)
        requires
            self.wf(),
        ensures
            match r {
                Ok(s) => self@.len() > 0 && response_from(
                    self@,
                    request@,
                    engine_scoring(),
                    s@,
                ),
                Err(e) => self@.len() == 0 && e == RespondError::NoCorpusEntries,
            },
    {
        if self.requests_responses.len() == 0 {
            proof {
                assert(self@.len() == 0);
            }
            Err(RespondError::NoCorpusEntries)
        } else {
            proof {
                assert(self@.len() > 0);
            }
            Ok(self.get_response(request))
        }
    }
}

} // verus!
