//! The corpus index: one entry per historical message that received at
//! least one reply, in message order, each pairing the message's text with
//! the ordered texts of its replies.
//!
//! Construction groups replies by the id they answer and attaches each
//! group to the first message carrying that id; a reply whose target id
//! matches no message, and a message with no matching replies, are silently
//! dropped. The index is never mutated after construction.

use vstd::prelude::*;

verus! {

/// A historical message: an identifier and its text.
pub struct Message {
    pub id: u64,
    pub text: String,
}

/// A recorded reply: its text and the id of the message it answered.
pub struct Reply {
    pub text: String,
    pub reply_to_id: u64,
}

/// One corpus entry: a request text and the non-empty ordered texts that
/// were sent in reply to it.
pub struct RequestResponses {
    pub request: String,
    pub responses: Vec<String>,
}

/// The corpus index, owned by the retrieval engine and read-only after
/// construction.
pub struct DialogCore {
    pub requests_responses: Vec<RequestResponses>,
}

/// The texts of the replies answering `id`, in their original order.
pub open spec fn gathered(replies: Seq<Reply>, id: u64) -> Seq<Seq<char>>
    decreases replies.len(),
{
    if replies.len() == 0 {
        Seq::empty()
    } else {
        let prefix = gathered(replies.drop_last(), id);
        if replies.last().reply_to_id == id {
            prefix.push(replies.last().text@)
        } else {
            prefix
        }
    }
}

/// Whether no earlier message carries the same id as message `k`.
pub open spec fn fresh_id(messages: Seq<Message>, k: int) -> bool {
    forall|t: int| 0 <= t < k ==> (#[trigger] messages[t]).id != messages[k].id
}

/// The entries the index is built from: one per message whose id is seen
/// there for the first time and has at least one reply, in message order.
pub open spec fn built(messages: Seq<Message>, replies: Seq<Reply>) -> Seq<
    (Seq<char>, Seq<Seq<char>>),
>
    decreases messages.len(),
{
    if messages.len() == 0 {
        Seq::empty()
    } else {
        let prefix = built(messages.drop_last(), replies);
        let k = messages.len() - 1;
        let m = messages.last();
        if fresh_id(messages, k) && gathered(replies, m.id).len() > 0 {
            prefix.push((m.text@, gathered(replies, m.id)))
        } else {
            prefix
        }
    }
}

/// Every gathered response text is the text of one of the replies, and of
/// one that answered the gathered id.
pub proof fn lemma_gathered_from_replies(replies: Seq<Reply>, id: u64, j: int)
    requires
        0 <= j < gathered(replies, id).len(),
    ensures
        exists|t: int|
            0 <= t < replies.len() && gathered(replies, id)[j] == (#[trigger] replies[t]).text@
                && replies[t].reply_to_id == id,
    decreases replies.len(),
{
    let gs = gathered(replies, id);
    let prefix = gathered(replies.drop_last(), id);
    if replies.last().reply_to_id == id && j == prefix.len() {
        let t = replies.len() - 1;
        assert(gs[j] == replies[t as int].text@);
        assert(replies[t as int].reply_to_id == id);
    } else {
        lemma_gathered_from_replies(replies.drop_last(), id, j);
        let t = choose|t: int|
            0 <= t < replies.drop_last().len() && prefix[j] == (#[trigger] replies.drop_last()[
                t]).text@ && replies.drop_last()[t].reply_to_id == id;
        assert(replies.drop_last()[t] == replies[t]);
        assert(gs[j] == prefix[j]);
    }
}

/// Every response of every built entry is the text of one of the replies.
pub proof fn lemma_built_from_replies(messages: Seq<Message>, replies: Seq<Reply>, k: int, j: int)
    requires
        0 <= k < built(messages, replies).len(),
        0 <= j < built(messages, replies)[k].1.len(),
    ensures
        exists|t: int|
            0 <= t < replies.len() && built(messages, replies)[k].1[j] == (#[trigger] replies[
                t]).text@,
    decreases messages.len(),
{
    let v = built(messages, replies);
    let prefix = built(messages.drop_last(), replies);
    let m = messages.last();
    if fresh_id(messages, messages.len() - 1) && gathered(replies, m.id).len() > 0 && k
        == prefix.len() {
        assert(v[k].1 == gathered(replies, m.id));
        lemma_gathered_from_replies(replies, m.id, j);
        let t = choose|t: int|
            0 <= t < replies.len() && gathered(replies, m.id)[j] == (#[trigger] replies[t]).text@
                && replies[t].reply_to_id == m.id;
        assert(v[k].1[j] == replies[t].text@);
    } else {
        assert(v[k] == prefix[k]);
        lemma_built_from_replies(messages.drop_last(), replies, k, j);
    }
}

impl View for RequestResponses {
    type V = (Seq<char>, Seq<Seq<char>>);

    open spec fn view(&self) -> (Seq<char>, Seq<Seq<char>>) {
        (self.request@, self.responses.deep_view())
    }
}

impl View for DialogCore {
    type V = Seq<(Seq<char>, Seq<Seq<char>>)>;

    open spec fn view(&self) -> Seq<(Seq<char>, Seq<Seq<char>>)> {
        self.requests_responses@.map_values(|e: RequestResponses| e@)
    }
}

impl DialogCore {
    /// Every entry of a well-formed index holds at least one response.
    pub open spec fn wf(&self) -> bool {
        forall|k: int| 0 <= k < self@.len() ==> (#[trigger] self@[k]).1.len() > 0
    }

    /// Builds the index from ingested messages and replies. The result is
    /// exactly `built(messages, replies)`: replies are grouped by the id
    /// they answer, in order; each group is consumed by the first message
    /// carrying its id; messages without replies produce no entry.
    pub fn new(messages: Vec<Message>, replies: Vec<Reply>) -> (r: DialogCore)
        ensures
            r@ == built(messages@, replies@),
            r.wf(),
    {
        let mut entries: Vec<RequestResponses> = Vec::new();
        let mut k: usize = 0;
        while k < messages.len()
            invariant
                k <= messages@.len(),
                entries@.map_values(|e: RequestResponses| e@) == built(
                    messages@.take(k as int),
                    replies@,
                ),
                forall|t: int|
                    0 <= t < entries@.len() ==> (#[trigger] entries@[t])@.1.len() > 0,
            decreases messages@.len() - k,
        {
            let ghost pre = messages@.take(k as int);
            let ghost now = messages@.take(k as int + 1);
            proof {
                assert(now.drop_last() =~= pre);
                assert(now.last() == messages@[k as int]);
                assert(forall|u: int| 0 <= u <= k ==> #[trigger] now[u] == messages@[u]);
            }
            // Is this the first message with this id?
            let mut fresh: bool = true;
            let mut t: usize = 0;
            while t < k
                invariant
                    t <= k,
                    k < messages@.len(),
                    fresh == (forall|u: int|
                        0 <= u < t ==> (#[trigger] messages@[u]).id != messages@[k as int].id),
                decreases k - t,
            {
                if messages[t].id == messages[k].id {
                    fresh = false;
                }
                t += 1;
            }
            proof {
                if fresh {
                    let ghost ki = k as int;
                    assert forall|t: int| 0 <= t < k implies (#[trigger] now[t]).id
                        != now[ki].id by {
                        assert(now[t] == messages@[t]);
                        assert(messages@[t].id != messages@[k as int].id);
                    }
                    assert(fresh_id(now, k as int));
                } else {
                    assert(exists|u: int|
                        0 <= u < k && (#[trigger] messages@[u]).id == messages@[k as int].id)
                        by {
                        assert(!(forall|u: int|
                            0 <= u < k ==> (#[trigger] messages@[u]).id != messages@[
                                k as int].id));
                    }
                    let u = choose|u: int|
                        0 <= u < k && (#[trigger] messages@[u]).id == messages@[k as int].id;
                    assert(now[u].id == now[k as int].id);
                    assert(!fresh_id(now, k as int));
                }
            }
            if fresh {
                // Gather the texts of the replies answering this id.
                let mut resp: Vec<String> = Vec::new();
                let mut u: usize = 0;
                while u < replies.len()
                    invariant
                        u <= replies@.len(),
                        k < messages@.len(),
                        resp.deep_view() == gathered(
                            replies@.take(u as int),
                            messages@[k as int].id,
                        ),
                    decreases replies@.len() - u,
                {
                    let ghost rpre = replies@.take(u as int);
                    let ghost rnow = replies@.take(u as int + 1);
                    proof {
                        assert(rnow.drop_last() =~= rpre);
                        assert(rnow.last() == replies@[u as int]);
                    }
                    if replies[u].reply_to_id == messages[k].id {
                        resp.push(replies[u].text.clone());
                    }
                    u += 1;
                    proof {
                        assert(resp.deep_view() =~= gathered(rnow, messages@[k as int].id));
                    }
                }
                proof {
                    assert(replies@.take(replies@.len() as int) =~= replies@);
                    assert(resp.deep_view() == gathered(replies@, messages@[k as int].id));
                }
                if resp.len() > 0 {
                    let entry = RequestResponses {
                        request: messages[k].text.clone(),
                        responses: resp,
                    };
                    let ghost before = entries@;
                    proof {
                        assert(entry@ == (now.last().text@, gathered(replies@, now.last().id)));
                        assert(gathered(replies@, now.last().id).len() > 0);
                    }
                    entries.push(entry);
                    proof {
                        assert(entries@ == before.push(entry));
                        assert(entries@.map_values(|e: RequestResponses| e@) =~= built(
                            now,
                            replies@,
                        ));
                    }
                } else {
                    proof {
                        assert(gathered(replies@, now.last().id).len() == 0);
                        assert(entries@.map_values(|e: RequestResponses| e@) =~= built(
                            now,
                            replies@,
                        ));
                    }
                }
            } else {
                proof {
                    assert(entries@.map_values(|e: RequestResponses| e@) =~= built(
                        now,
                        replies@,
                    ));
                }
            }
            k += 1;
        }
        proof {
            assert(messages@.take(messages@.len() as int) =~= messages@);
        }
        DialogCore { requests_responses: entries }
    }

    /// The number of entries the index holds.
    pub fn len(&self) -> (n: usize)
        ensures
            n == self@.len(),
    {
        self.requests_responses.len()
    }

    /// Whether the index holds no entry at all.
    pub fn is_empty(&self) -> (b: bool)
        ensures
            b == (self@.len() == 0),
    {
        self.requests_responses.len() == 0
    }
}

} // verus!
