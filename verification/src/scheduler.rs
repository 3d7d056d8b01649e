//! First-come first-served prefill scheduler under a token budget.
use std::collections::VecDeque;
use std::time::Instant;
use vstd::prelude::*;
use crate::types::{Request, RequestId};

verus! {

broadcast use vstd::std_specs::vecdeque::group_vec_dequeue_axioms;

/// A point in time, from the standard library's monotonic clock.
#[verifier::external_type_specification]
#[verifier::external_body]
pub struct ExInstant(Instant);

/// `Instant::clone`: `Instant` is `Copy`, so the clone is the same instant.
pub assume_specification[ <Instant as Clone>::clone ](t: &Instant) -> (c: Instant)
    ensures
        c == *t,
;

/// A request together with the time it arrived.
#[derive(Debug, Clone)]
pub struct SchedulerRequest {
    pub request: Request,
    pub arrival_time: Instant,
}

/// The tokens of all prompts in `reqs` together.
pub open spec fn total_tokens(reqs: Seq<Request>) -> nat
    decreases reqs.len(),
{
    if reqs.len() == 0 {
        0
    } else {
        total_tokens(reqs.drop_last()) + reqs.last().prompt_tokens@.len()
    }
}

/// The ids of the requests, in their order.
pub open spec fn request_ids(reqs: Seq<Request>) -> Seq<RequestId> {
    reqs.map_values(|r: Request| r.id)
}

/// The running requests left when `done` completes, in their order.
pub open spec fn without_request(running: Seq<RequestId>, done: RequestId) -> Seq<RequestId> {
    running.filter(|r: RequestId| r != done)
}

#[derive(Debug)]
pub struct PrefillScheduler {
    waiting: VecDeque<Request>,
    running: VecDeque<RequestId>,
    max_batch_tokens: usize,
}

impl PrefillScheduler {
    /// The requests waiting for prefill, oldest first.
    pub closed spec fn waiting(&self) -> Seq<Request> {
        self.waiting@
    }

    /// The ids of the requests in prefill, in the order they were scheduled.
    pub closed spec fn running(&self) -> Seq<RequestId> {
        self.running@
    }

    /// The most prompt tokens one batch may hold.
    pub closed spec fn max_batch_tokens(&self) -> usize {
        self.max_batch_tokens
    }

    pub fn new(max_batch_tokens: usize) -> (s: Self)
        ensures
            s.waiting() == Seq::<Request>::empty(),
            s.running() == Seq::<RequestId>::empty(),
            s.max_batch_tokens() == max_batch_tokens,
    {
        Self { waiting: VecDeque::new(), running: VecDeque::new(), max_batch_tokens }
    }

    /// Queues a request behind those already waiting.
    pub fn add(&mut self, request: Request)
        ensures
            final(self).waiting() == old(self).waiting().push(request),
            final(self).running() == old(self).running(),
            final(self).max_batch_tokens() == old(self).max_batch_tokens(),
    {
        self.waiting.push_back(request);
    }

    /// Takes the longest run of waiting requests, from the oldest on, whose
    /// prompts fit together into the token budget; they start running.
    pub fn schedule(&mut self) -> (batch: Vec<Request>)
        ensures
            ({
                let w = old(self).waiting();
                let k = batch@.len();
                &&& k <= w.len()
                &&& batch@ == w.take(k as int)
                &&& final(self).waiting() == w.skip(k as int)
                &&& batch@ + final(self).waiting() == w
                &&& total_tokens(batch@) <= old(self).max_batch_tokens()
                &&& k < w.len() ==> total_tokens(w.take(k + 1int)) > old(self).max_batch_tokens()
                &&& final(self).running() == old(self).running() + request_ids(batch@)
            }),
            final(self).max_batch_tokens() == old(self).max_batch_tokens(),
    {
        let ghost w = self.waiting@;
        let mut batch: Vec<Request> = Vec::new();
        let mut tokens_scheduled: usize = 0;
        proof {
            assert(w.take(0) =~= batch@);
            assert(w.skip(0) =~= w);
            assert(request_ids(batch@) =~= Seq::<RequestId>::empty());
            assert(old(self).running@ + request_ids(batch@) =~= old(self).running@);
        }
        loop
            invariant
                batch@.len() <= w.len(),
                batch@ == w.take(batch@.len() as int),
                self.waiting@ == w.skip(batch@.len() as int),
                w == old(self).waiting@,
                tokens_scheduled == total_tokens(batch@),
                tokens_scheduled <= self.max_batch_tokens,
                self.max_batch_tokens == old(self).max_batch_tokens,
                self.running@ == old(self).running@ + request_ids(batch@),
            ensures
                batch@.len() <= w.len(),
                batch@ == w.take(batch@.len() as int),
                self.waiting@ == w.skip(batch@.len() as int),
                tokens_scheduled == total_tokens(batch@),
                tokens_scheduled <= self.max_batch_tokens,
                self.max_batch_tokens == old(self).max_batch_tokens,
                self.running@ == old(self).running@ + request_ids(batch@),
                batch@.len() < w.len() ==> total_tokens(w.take(batch@.len() + 1int))
                    > self.max_batch_tokens,
            decreases w.len() - batch@.len(),
        {
            if self.waiting.len() == 0 {
                break ;
            }
            let request_tokens = self.waiting[0].num_tokens();
            let ghost k = batch@.len();
            proof {
                assert(w.take(k + 1int).drop_last() =~= w.take(k as int));
                assert(w[k as int] == self.waiting@[0]);
            }
            if request_tokens > self.max_batch_tokens - tokens_scheduled {
                break ;
            }
            let request = match self.waiting.pop_front() {
                Some(request) => request,
                None => {
                    break ;
                },
            };
            tokens_scheduled = tokens_scheduled + request_tokens;
            self.running.push_back(request.id);
            batch.push(request);
            proof {
                assert(batch@ =~= w.take(k + 1int));
                assert(self.waiting@ =~= w.skip(k + 1int));
                assert(request_ids(batch@) =~= request_ids(w.take(k as int)).push(request.id));
                assert(self.running@ =~= old(self).running@ + request_ids(batch@));
            }
        }
        proof {
            assert(batch@ + self.waiting@ =~= w);
        }
        batch
    }

    /// Drops a request from the running set.
    pub fn complete(&mut self, request_id: RequestId)
        ensures
            final(self).running() == without_request(old(self).running(), request_id),
            !final(self).running().contains(request_id),
            final(self).waiting() == old(self).waiting(),
            final(self).max_batch_tokens() == old(self).max_batch_tokens(),
    {
        let ghost running = self.running@;
        let mut kept: VecDeque<RequestId> = VecDeque::new();
        let mut i: usize = 0;
        proof {
            reveal(Seq::filter);
            assert(running.take(0) =~= Seq::<RequestId>::empty());
        }
        while i < self.running.len()
            invariant
                i <= running.len(),
                self.running@ == running,
                kept@ == without_request(running.take(i as int), request_id),
            decreases running.len() - i,
        {
            let r = self.running[i];
            if r != request_id {
                kept.push_back(r);
            }
            proof {
                reveal(Seq::filter);
                assert(running.take(i + 1).drop_last() =~= running.take(i as int));
            }
            i = i + 1;
        }
        proof {
            assert(running.take(i as int) =~= running);
        }
        self.running = kept;
        proof {
            broadcast use vstd::seq_lib::group_filter_ensures;
            let f = self.running@;
            if f.contains(request_id) {
                let j = choose|j: int| 0 <= j < f.len() && f[j] == request_id;
                assert((|r: RequestId| r != request_id)(f[j]));
            }
        }
    }

    pub fn waiting_len(&self) -> (n: usize)
        ensures
            n == self.waiting().len(),
    {
        self.waiting.len()
    }

    pub fn running_len(&self) -> (n: usize)
        ensures
            n == self.running().len(),
    {
        self.running.len()
    }
}

/// One call on a scheduler, with what it returned.
pub enum SchedulerCall {
    Add(Request),
    Schedule(Vec<Request>),
    Complete(RequestId),
}

/// `post` is what `call` leaves of `pre`, as the call's contract states.
pub open spec fn call_effect(pre: PrefillScheduler, call: SchedulerCall, post: PrefillScheduler) -> bool {
    &&& post.max_batch_tokens() == pre.max_batch_tokens()
    &&& match call {
        SchedulerCall::Add(request) => {
            &&& post.waiting() == pre.waiting().push(request)
            &&& post.running() == pre.running()
        },
        SchedulerCall::Schedule(batch) => {
            &&& batch@.len() <= pre.waiting().len()
            &&& batch@ == pre.waiting().take(batch@.len() as int)
            &&& post.waiting() == pre.waiting().skip(batch@.len() as int)
            &&& post.running() == pre.running() + request_ids(batch@)
        },
        SchedulerCall::Complete(id) => {
            &&& post.waiting() == pre.waiting()
            &&& post.running() == without_request(pre.running(), id)
        },
    }
}

/// `calls` run one after another on a new scheduler pass through `states`.
pub open spec fn is_history(states: Seq<PrefillScheduler>, calls: Seq<SchedulerCall>) -> bool {
    &&& states.len() == calls.len() + 1
    &&& states[0].waiting() == Seq::<Request>::empty()
    &&& states[0].running() == Seq::<RequestId>::empty()
    &&& forall|i: int| 0 <= i < calls.len() ==> call_effect(states[i], #[trigger] calls[i], states[i + 1])
}

/// The requests the calls added, in order.
pub open spec fn added(calls: Seq<SchedulerCall>) -> Seq<Request>
    decreases calls.len(),
{
    if calls.len() == 0 {
        Seq::empty()
    } else {
        match calls.last() {
            SchedulerCall::Add(request) => added(calls.drop_last()).push(request),
            _ => added(calls.drop_last()),
        }
    }
}

/// The requests the calls' batches handed out, in order.
pub open spec fn scheduled(calls: Seq<SchedulerCall>) -> Seq<Request>
    decreases calls.len(),
{
    if calls.len() == 0 {
        Seq::empty()
    } else {
        match calls.last() {
            SchedulerCall::Schedule(batch) => scheduled(calls.drop_last()) + batch@,
            _ => scheduled(calls.drop_last()),
        }
    }
}

/// How often `id` was scheduled since the last call that completed it.
pub open spec fn live_count(calls: Seq<SchedulerCall>, id: RequestId) -> nat
    decreases calls.len(),
{
    if calls.len() == 0 {
        0
    } else {
        match calls.last() {
            SchedulerCall::Schedule(batch) => live_count(calls.drop_last(), id)
                + request_ids(batch@).to_multiset().count(id),
            SchedulerCall::Complete(done) => if done == id {
                0
            } else {
                live_count(calls.drop_last(), id)
            },
            _ => live_count(calls.drop_last(), id),
        }
    }
}

/// Completing a request drops every occurrence of it and no other.
pub proof fn lemma_without_request_counts(running: Seq<RequestId>, done: RequestId, id: RequestId)
    ensures
        without_request(running, done).to_multiset().count(id) == if id == done {
            0
        } else {
            running.to_multiset().count(id)
        },
    decreases running.len(),
{
    broadcast use vstd::seq_lib::group_to_multiset_ensures, vstd::multiset::group_multiset_axioms, vstd::multiset::lemma_multiset_empty_len;
    reveal(Seq::filter);
    if running.len() == 0 {
        assert(running.to_multiset() =~= vstd::multiset::Multiset::empty());
        assert(without_request(running, done).to_multiset() =~= vstd::multiset::Multiset::empty());
    } else {
        lemma_without_request_counts(running.drop_last(), done, id);
        assert(running == running.drop_last().push(running.last()));
    }
}

/// The multiset of a concatenation.
proof fn lemma_concat_counts(a: Seq<RequestId>, b: Seq<RequestId>, id: RequestId)
    ensures
        (a + b).to_multiset().count(id) == a.to_multiset().count(id) + b.to_multiset().count(id),
    decreases b.len(),
{
    broadcast use vstd::seq_lib::group_to_multiset_ensures, vstd::multiset::group_multiset_axioms, vstd::multiset::lemma_multiset_empty_len;
    if b.len() == 0 {
        assert(a + b =~= a);
        assert(b.to_multiset() =~= vstd::multiset::Multiset::empty());
    } else {
        lemma_concat_counts(a, b.drop_last(), id);
        assert(a + b =~= (a + b.drop_last()).push(b.last()));
        assert(b =~= b.drop_last().push(b.last()));
    }
}

/// What a scheduler holds after any run of calls: the requests it hands
/// out are the added ones in the order they were added, the waiting queue
/// is the added requests not yet handed out, so `waiting_len` is the
/// number added less the number scheduled; and each request id is running
/// as often as it was scheduled since it was last completed, so
/// `running_len` counts exactly those.
pub proof fn lemma_history(states: Seq<PrefillScheduler>, calls: Seq<SchedulerCall>, k: int)
    requires
        is_history(states, calls),
        0 <= k <= calls.len(),
    ensures
        scheduled(calls.take(k)).len() <= added(calls.take(k)).len(),
        scheduled(calls.take(k)) == added(calls.take(k)).take(scheduled(calls.take(k)).len() as int),
        states[k].waiting() == added(calls.take(k)).skip(scheduled(calls.take(k)).len() as int),
        states[k].waiting().len() == added(calls.take(k)).len() - scheduled(calls.take(k)).len(),
        forall|id: RequestId|
            #[trigger] states[k].running().to_multiset().count(id) == live_count(calls.take(k), id),
    decreases k,
{
    broadcast use vstd::seq_lib::group_to_multiset_ensures, vstd::multiset::group_multiset_axioms, vstd::multiset::lemma_multiset_empty_len;
    let c = calls.take(k);
    if k == 0 {
        assert(c =~= Seq::<SchedulerCall>::empty());
        assert(added(c).take(0) =~= scheduled(c));
        assert(states[0].waiting() =~= added(c).skip(0));
        assert(states[0].running().to_multiset() =~= vstd::multiset::Multiset::empty());
    } else {
        lemma_history(states, calls, k - 1);
        let p = calls.take(k - 1);
        assert(c.drop_last() =~= p);
        assert(c.last() == calls[k - 1]);
        assert(call_effect(states[k - 1], calls[k - 1], states[k]));
        let a = added(p);
        let sp = scheduled(p);
        match calls[k - 1] {
            SchedulerCall::Add(request) => {
                assert(added(c) == a.push(request));
                assert(a.push(request).take(sp.len() as int) =~= a.take(sp.len() as int));
                assert(states[k].waiting() =~= a.push(request).skip(sp.len() as int));
            },
            SchedulerCall::Schedule(batch) => {
                let b = batch@;
                assert(scheduled(c) == sp + b);
                assert(sp + b =~= a.take((sp.len() + b.len()) as int));
                assert(states[k].waiting() =~= a.skip((sp.len() + b.len()) as int));
                assert forall|id: RequestId|
                    #[trigger] states[k].running().to_multiset().count(id) == live_count(c, id) by {
                    lemma_concat_counts(states[k - 1].running(), request_ids(b), id);
                }
            },
            SchedulerCall::Complete(done) => {
                assert forall|id: RequestId|
                    #[trigger] states[k].running().to_multiset().count(id) == live_count(c, id) by {
                    lemma_without_request_counts(states[k - 1].running(), done, id);
                }
            },
        }
    }
}

} // verus!
