//! Engines on a worker's own host, reached over sockets.

use crate::inference::into_tokenspeed_request;
use crate::inference::tokenspeed;
use crate::inference::tokenspeed_request;
use crate::inference::worker;
use crate::status::Code;
use crate::status::Status;
use crate::text::same_text;
use vstd::prelude::*;

verus! {

/// What an engine is.
pub enum RuntimeType {
    Vllm,
    TokenSpeed,
    /// Another engine, by its name.
    Other(String),
}

/// Why an engine's sockets are not bound.
pub open spec fn refusal(runtime: RuntimeType, engine_count: usize) -> Option<Seq<char>> {
    match runtime {
        RuntimeType::Other(name) => Some(
            "Worker ZMQ transport supports only vllm and tokenspeed, not "@ + name@,
        ),
        _ => if engine_count == 0 {
            Some("Worker ZMQ engine_count must be positive"@)
        } else {
            None
        },
    }
}

/// Requests that run, each with the number of its stream.
pub struct ActiveRequests {
    entries: Vec<(String, u64)>,
}

impl View for ActiveRequests {
    type V = Map<Seq<char>, u64>;

    closed spec fn view(&self) -> Map<Seq<char>, u64> {
        entry_map(self.entries@)
    }
}

/// Entries as a map: each request has one at most.
pub open spec fn entry_map(s: Seq<(String, u64)>) -> Map<Seq<char>, u64>
    decreases s.len(),
{
    if s.len() == 0 {
        Map::empty()
    } else {
        entry_map(s.drop_last()).insert(s.last().0@, s.last().1)
    }
}

proof fn entries_in_map(s: Seq<(String, u64)>)
    requires
        forall|i: int, j: int| 0 <= i < j < s.len() ==> #[trigger] s[i].0@ != #[trigger] s[j].0@,
    ensures
        forall|i: int|
            0 <= i < s.len() ==> entry_map(s).contains_key(#[trigger] s[i].0@) && entry_map(
                s,
            )[s[i].0@] == s[i].1,
        forall|k: Seq<char>| #[trigger]
            entry_map(s).contains_key(k) ==> exists|i: int|
                0 <= i < s.len() && (#[trigger] s[i]).0@ == k,
    decreases s.len(),
{
    if s.len() > 0 {
        let t = s.drop_last();
        assert forall|i: int, j: int| 0 <= i < j < t.len() implies #[trigger] t[i].0@
            != #[trigger] t[j].0@ by {
            assert(s[i].0@ != s[j].0@);
        }
        entries_in_map(t);
        assert forall|i: int| 0 <= i < s.len() implies entry_map(s).contains_key(
            #[trigger] s[i].0@,
        ) && entry_map(s)[s[i].0@] == s[i].1 by {
            if i < t.len() {
                assert(t[i].0@ == s[i].0@);
                assert(s[i].0@ != s[t.len() as int].0@);
            }
        }
        assert forall|k: Seq<char>| #[trigger] entry_map(s).contains_key(k) implies exists|i: int|
            0 <= i < s.len() && (#[trigger] s[i]).0@ == k by {
            if k != s.last().0@ {
                assert(entry_map(t).contains_key(k));
                let i = choose|i: int| 0 <= i < t.len() && (#[trigger] t[i]).0@ == k;
                assert(s[i].0@ == k);
            } else {
                assert(s[s.len() - 1].0@ == k);
            }
        }
    }
}

impl ActiveRequests {
    /// No request is in it twice.
    pub closed spec fn wf(&self) -> bool {
        forall|i: int, j: int|
            0 <= i < j < self.entries@.len() ==> #[trigger] self.entries@[i].0@
                != #[trigger] self.entries@[j].0@
    }

    /// No request.
    pub fn new() -> (r: ActiveRequests)
        ensures
            r.wf(),
            r@ == Map::<Seq<char>, u64>::empty(),
    {
        ActiveRequests { entries: Vec::new() }
    }

    fn find(&self, request_id: &str) -> (r: Option<usize>)
        requires
            self.wf(),
        ensures
            match r {
                Some(i) => i < self.entries@.len() && self.entries@[i as int].0@ == request_id@
                    && self@.contains_key(request_id@) && self@[request_id@]
                    == self.entries@[i as int].1,
                None => !self@.contains_key(request_id@),
            },
    {
        proof {
            entries_in_map(self.entries@);
        }
        let mut i: usize = 0;
        while i < self.entries.len()
            invariant
                i <= self.entries@.len(),
                forall|j: int| 0 <= j < i ==> (#[trigger] self.entries@[j]).0@ != request_id@,
                forall|j: int|
                    0 <= j < self.entries@.len() ==> self@.contains_key(
                        #[trigger] self.entries@[j].0@,
                    ) && self@[self.entries@[j].0@] == self.entries@[j].1,
            decreases self.entries@.len() - i,
        {
            if same_text(self.entries[i].0.as_str(), request_id) {
                assert(self@.contains_key(self.entries@[i as int].0@));
                return Some(i);
            }
            i = i + 1;
        }
        None
    }

    /// Takes a request in. One of the same name leaves: its stream is cancelled.
    pub fn insert(&mut self, request_id: &str, stream: u64) -> (r: Option<u64>)
        requires
            old(self).wf(),
        ensures
            final(self).wf(),
            final(self)@ == old(self)@.insert(request_id@, stream),
            r == (if old(self)@.contains_key(request_id@) {
                Some(old(self)@[request_id@])
            } else {
                None
            }),
    {
        let was = self.remove(request_id);
        let ghost mid = *self;
        self.entries.push((request_id.to_owned(), stream));
        proof {
            let s = self.entries@;
            assert(s.drop_last() =~= mid.entries@);
            entries_in_map(mid.entries@);
            assert forall|i: int, j: int| 0 <= i < j < s.len() implies #[trigger] s[i].0@
                != #[trigger] s[j].0@ by {
                if j == s.len() - 1 {
                    assert(mid@.contains_key(mid.entries@[i].0@));
                } else {
                    assert(mid.entries@[i].0@ != mid.entries@[j].0@);
                }
            }
            assert(self@ =~= old(self)@.insert(request_id@, stream));
        }
        was
    }

    /// Takes a request out, and says which stream it had.
    pub fn remove(&mut self, request_id: &str) -> (r: Option<u64>)
        requires
            old(self).wf(),
        ensures
            final(self).wf(),
            final(self)@ == old(self)@.remove(request_id@),
            r == (if old(self)@.contains_key(request_id@) {
                Some(old(self)@[request_id@])
            } else {
                None
            }),
    {
        match self.find(request_id) {
            None => {
                assert(self@ =~= old(self)@.remove(request_id@));
                None
            },
            Some(i) => {
                let ghost pre = self.entries@;
                let (_, stream) = self.entries.remove(i);
                proof {
                    let post = self.entries@;
                    assert(post =~= pre.remove(i as int));
                    let old_at = |j: int| if j < i {
                        j
                    } else {
                        j + 1
                    };
                    assert forall|a: int, b: int| 0 <= a < b < post.len() implies #[trigger] post[a].0@
                        != #[trigger] post[b].0@ by {
                        assert(post[a] == pre[old_at(a)]);
                        assert(post[b] == pre[old_at(b)]);
                        assert(pre[old_at(a)].0@ != pre[old_at(b)].0@);
                    }
                    entries_in_map(pre);
                    entries_in_map(post);
                    assert forall|k: Seq<char>| #[trigger] entry_map(post).contains_key(
                        k,
                    ) <==> entry_map(pre).remove(request_id@).contains_key(k) by {
                        if entry_map(post).contains_key(k) {
                            let j = choose|j: int|
                                0 <= j < post.len() && (#[trigger] post[j]).0@ == k;
                            assert(post[j] == pre[old_at(j)]);
                            assert(entry_map(pre).contains_key(pre[old_at(j)].0@));
                            if j < i {
                                assert(pre[j].0@ != pre[i as int].0@);
                            } else {
                                assert(pre[i as int].0@ != pre[j + 1].0@);
                            }
                        }
                        if entry_map(pre).remove(request_id@).contains_key(k) {
                            let j = choose|j: int|
                                0 <= j < pre.len() && (#[trigger] pre[j]).0@ == k;
                            assert(pre[j].0@ != pre[i as int].0@);
                            let p = if j < i {
                                j
                            } else {
                                j - 1
                            };
                            assert(post[p] == pre[j]);
                            assert(entry_map(post).contains_key(post[p].0@));
                        }
                    }
                    assert forall|k: Seq<char>| #[trigger]
                        entry_map(post).contains_key(k) implies entry_map(post)[k] == entry_map(
                        pre,
                    )[k] by {
                        let j = choose|j: int| 0 <= j < post.len() && (#[trigger] post[j]).0@ == k;
                        assert(post[j] == pre[old_at(j)]);
                        assert(entry_map(pre)[pre[old_at(j)].0@] == pre[old_at(j)].1);
                        assert(entry_map(post)[post[j].0@] == post[j].1);
                    }
                    assert(entry_map(post) =~= entry_map(pre).remove(request_id@));
                }
                Some(stream)
            },
        }
    }
}

/// What an abort is answered.
pub struct AbortResponse {
    pub success: bool,
    pub message: String,
}

/// A request in the engine's own form.
pub enum EngineRequest {
    /// The request as it came: vLLM's form is made of it.
    Vllm(worker::GenerateRequest),
    TokenSpeed(tokenspeed::GenerateRequest),
}

/// The request is in the form of the engine, or there is none for it.
pub open spec fn in_the_form_of(
    runtime: RuntimeType,
    request: worker::GenerateRequest,
    r: Result<EngineRequest, Status>,
) -> bool {
    match runtime {
        RuntimeType::Vllm => r matches Ok(EngineRequest::Vllm(q)) && q == request,
        RuntimeType::TokenSpeed => r matches Ok(EngineRequest::TokenSpeed(q)) && q
            == tokenspeed_request(request),
        RuntimeType::Other(name) => r matches Err(e) && e.is(
            Code::FailedPrecondition,
            "Worker ZMQ transport is unavailable for "@ + name@,
        ),
    }
}

/// The engine sockets of a worker.
pub struct ZmqWorkerTransport {
    pub runtime: RuntimeType,
    pub active: ActiveRequests,
}

impl ZmqWorkerTransport {
    /// Whether sockets may be bound for such engines.
    pub fn connect(runtime: RuntimeType, engine_count: usize) -> (r: Result<
        ZmqWorkerTransport,
        String,
    >)
        ensures
            match refusal(runtime, engine_count) {
                None => r matches Ok(t) && t.runtime == runtime && t.active.wf() && t.active@
                    == Map::<Seq<char>, u64>::empty(),
                Some(message) => r matches Err(e) && e@ == message,
            },
    {
        match &runtime {
            RuntimeType::Other(name) => {
                let mut m = "Worker ZMQ transport supports only vllm and tokenspeed, not ".to_owned();
                m.append(name.as_str());
                return Err(m);
            },
            _ => {},
        }
        if engine_count == 0 {
            return Err("Worker ZMQ engine_count must be positive".to_owned());
        }
        Ok(ZmqWorkerTransport { runtime, active: ActiveRequests::new() })
    }

    /// The request in the engine's form.
    pub fn generate(&self, request: worker::GenerateRequest) -> (r: Result<EngineRequest, Status>)
        ensures
            in_the_form_of(self.runtime, request, r),
    {
        match &self.runtime {
            RuntimeType::Vllm => Ok(EngineRequest::Vllm(request)),
            RuntimeType::TokenSpeed => Ok(
                EngineRequest::TokenSpeed(into_tokenspeed_request(request)),
            ),
            RuntimeType::Other(name) => {
                let mut m = "Worker ZMQ transport is unavailable for ".to_owned();
                m.append(name.as_str());
                Err(Status { code: Code::FailedPrecondition, message: m })
            },
        }
    }

    /// Ends a request: the stream to cancel, if there is one, and the answer. A
    /// request that has finished, or that was cancelled before, is a success too.
    pub fn abort(&mut self, request_id: &str) -> (r: (Option<u64>, AbortResponse))
        requires
            old(self).active.wf(),
        ensures
            final(self).runtime == old(self).runtime,
            final(self).active.wf(),
            final(self).active@ == old(self).active@.remove(request_id@),
            r.0 == (if old(self).active@.contains_key(request_id@) {
                Some(old(self).active@[request_id@])
            } else {
                None
            }),
            r.1.success,
            r.1.message@ == ""@,
    {
        let stream = self.active.remove(request_id);
        (stream, AbortResponse { success: true, message: "".to_owned() })
    }
}

/// An engine's stream on its way to the router.
pub struct ZmqStream {
    pub done: bool,
}

/// What comes in.
pub enum StreamEvent {
    /// The request was aborted.
    Cancelled,
    /// A response.
    Item,
    Failed,
    /// The engine's stream ended.
    Exhausted,
}

/// What goes out.
#[derive(Debug, Clone, Copy, PartialEq, Eq, Structural)]
pub enum StreamAction {
    /// The response, under the request's own name.
    Pass,
    /// The error, and nothing after it.
    PassError,
    End,
}

/// What one event leads to, and what goes out.
pub open spec fn passes(
    pre: ZmqStream,
    event: StreamEvent,
    post: ZmqStream,
    action: StreamAction,
) -> bool {
    &&& pre.done ==> action == StreamAction::End && post.done
    &&& !pre.done ==> {
        &&& action == match event {
            StreamEvent::Item => StreamAction::Pass,
            StreamEvent::Failed => StreamAction::PassError,
            _ => StreamAction::End,
        }
        &&& post.done == (event is Failed)
    }
}

impl ZmqStream {
    /// Takes one event.
    pub fn step(&mut self, event: &StreamEvent) -> (r: StreamAction)
        ensures
            passes(*old(self), *event, *final(self), r),
    {
        if self.done {
            return StreamAction::End;
        }
        match event {
            StreamEvent::Cancelled => StreamAction::End,
            StreamEvent::Item => StreamAction::Pass,
            StreamEvent::Failed => {
                self.done = true;
                StreamAction::PassError
            },
            StreamEvent::Exhausted => StreamAction::End,
        }
    }
}

/// Aborts are idempotent: after one, a second finds no stream and changes
/// nothing.
pub proof fn aborts_are_idempotent(active: Map<Seq<char>, u64>, request_id: Seq<char>)
    ensures
        !active.remove(request_id).contains_key(request_id),
        active.remove(request_id).remove(request_id) == active.remove(request_id),
{
    assert(active.remove(request_id).remove(request_id) =~= active.remove(request_id));
}

} // verus!
