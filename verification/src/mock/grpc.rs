//! What a mock worker answers over gRPC: the TokenSpeed scheduler service.

use super::sim::Admitted;
use super::sim::SimLoad;
use super::sim::SimView;
use super::sim::SimWorker;
use crate::bridge::unsigned;
use crate::inference::tokenspeed::GenerateComplete;
use crate::inference::tokenspeed::GenerateEvent;
use crate::inference::tokenspeed::GenerateRequest;
use crate::inference::tokenspeed::GenerateResponse;
use crate::inference::tokenspeed::GenerateStreamChunk;
use crate::proto::KvBlock;
use crate::proto::KvCacheEvent;
use crate::proto::KvData;
use crate::proto::KvEventBatch;
use crate::status::Code;
use crate::status::Status;
use crate::text::views;
use vstd::prelude::*;

verus! {

/// How a worker makes its answers.
#[derive(Debug, Clone, Copy, PartialEq, Eq, Structural)]
pub enum Mode {
    /// Fixed answers after a fixed delay.
    Canned,
    /// Answers of the realistic engine.
    Realistic,
    /// Answers of the simulated worker.
    Sim,
}

/// A mock worker's scheduler service.
pub struct MockScheduler {
    pub mode: Mode,
    pub output_tokens: u32,
    pub gen_delay_ms: u64,
    /// Whether cache events can be had: of the simulated worker, or of the
    /// realistic engine with its prefix cache on.
    pub kv_events: bool,
}

/// A chunk as plain values.
pub struct ChunkView {
    pub token_ids: Seq<u32>,
    pub prompt_tokens: u32,
    pub completion_tokens: u32,
    pub cached_tokens: u32,
}

/// A completion as plain values.
pub struct CompleteView {
    pub output_ids: Seq<u32>,
    pub finish_reason: Seq<char>,
    pub prompt_tokens: u32,
    pub completion_tokens: u32,
    pub cached_tokens: u32,
}

/// The response is this chunk, without log probabilities.
pub open spec fn is_chunk(r: GenerateResponse, request_id: Seq<char>, v: ChunkView) -> bool {
    &&& r.request_id@ == request_id
    &&& r.response matches Some(GenerateEvent::Chunk(c)) && {
        &&& c.token_ids@ == v.token_ids
        &&& c.prompt_tokens == v.prompt_tokens
        &&& c.completion_tokens == v.completion_tokens
        &&& c.cached_tokens == v.cached_tokens
        &&& c.output_logprobs is None
        &&& c.index == 0
    }
}

/// The response is this completion, without log probabilities or matched stop.
pub open spec fn is_complete(r: GenerateResponse, request_id: Seq<char>, v: CompleteView) -> bool {
    &&& r.request_id@ == request_id
    &&& r.response matches Some(GenerateEvent::Complete(c)) && {
        &&& c.output_ids@ == v.output_ids
        &&& c.finish_reason@ == v.finish_reason
        &&& c.prompt_tokens == v.prompt_tokens
        &&& c.completion_tokens == v.completion_tokens
        &&& c.cached_tokens == v.cached_tokens
        &&& c.output_logprobs is None
        &&& c.matched_stop is None
        &&& c.index == 0
    }
}

fn chunk(
    request_id: &str,
    token_ids: Vec<u32>,
    prompt_tokens: u32,
    completion_tokens: u32,
    cached_tokens: u32,
) -> (r: GenerateResponse)
    ensures
        is_chunk(
            r,
            request_id@,
            (ChunkView {
                token_ids: token_ids@,
                prompt_tokens,
                completion_tokens,
                cached_tokens,
            }),
        ),
{
    GenerateResponse {
        request_id: request_id.to_owned(),
        response: Some(
            GenerateEvent::Chunk(
                GenerateStreamChunk {
                    token_ids,
                    prompt_tokens,
                    completion_tokens,
                    cached_tokens,
                    output_logprobs: None,
                    index: 0,
                },
            ),
        ),
    }
}

fn complete(
    request_id: &str,
    output_ids: Vec<u32>,
    finish_reason: &str,
    prompt_tokens: u32,
    completion_tokens: u32,
    cached_tokens: u32,
) -> (r: GenerateResponse)
    ensures
        is_complete(
            r,
            request_id@,
            (CompleteView {
                output_ids: output_ids@,
                finish_reason: finish_reason@,
                prompt_tokens,
                completion_tokens,
                cached_tokens,
            }),
        ),
{
    GenerateResponse {
        request_id: request_id.to_owned(),
        response: Some(
            GenerateEvent::Complete(
                GenerateComplete {
                    output_ids,
                    finish_reason: finish_reason.to_owned(),
                    prompt_tokens,
                    completion_tokens,
                    cached_tokens,
                    output_logprobs: None,
                    matched_stop: None,
                    index: 0,
                },
            ),
        ),
    }
}

/// The tokens of a request: none if it has none.
pub open spec fn input_of(request: GenerateRequest) -> Seq<u32> {
    match request.tokenized {
        None => Seq::empty(),
        Some(t) => t.input_ids@,
    }
}

/// How many tokens a request asks for: the worker's default if it does not say.
pub open spec fn budget_of(request: GenerateRequest, default: u32) -> u32 {
    match request.sampling_params {
        None => default,
        Some(p) => match p.max_new_tokens {
            None => default,
            Some(n) => n,
        },
    }
}

/// A canned token.
pub open spec fn canned_id(i: int) -> u32 {
    (100 + i) as u32
}

/// The canned tokens.
pub open spec fn canned_ids(n: u32) -> Seq<u32> {
    Seq::new(n as nat, |i: int| canned_id(i))
}

/// The canned answer: one chunk per token, and the completion.
pub open spec fn is_canned(request_id: Seq<char>, n: u32, answer: Seq<GenerateResponse>) -> bool {
    &&& answer.len() == n + 1
    &&& forall|i: int|
        0 <= i < n ==> is_chunk(
            #[trigger] answer[i],
            request_id,
            (ChunkView {
                token_ids: seq![canned_id(i)],
                prompt_tokens: 1,
                completion_tokens: 1,
                cached_tokens: 0,
            }),
        )
    &&& is_complete(
        answer[n as int],
        request_id,
        (CompleteView {
            output_ids: canned_ids(n),
            finish_reason: "stop"@,
            prompt_tokens: 1,
            completion_tokens: n,
            cached_tokens: 0,
        }),
    )
}

/// How a generation goes on in the simulated worker.
pub enum SimGen {
    /// The request waits for a slot.
    Admit { request_id: String, input_ids: Vec<u32>, max_new: u32 },
    /// The request's prefill runs.
    Prefill { request_id: String, max_new: u32, adm: Admitted },
    /// The request decodes.
    Decode { request_id: String, max_new: u32, adm: Admitted },
    Done,
}

/// What a generation does next.
pub enum SimAction {
    /// Wait for the prefill of so many uncached tokens.
    AwaitPrefill { uncached: usize },
    /// Send the first chunk, and wait until all tokens are decoded.
    SendAndDecode { first: GenerateResponse, tokens: u32 },
    /// Send the completion.
    SendLast(GenerateResponse),
    /// End the stream.
    End,
}

/// How a request is answered.
pub enum Plan {
    Sim(SimGen),
    /// Submit the request to the realistic engine, and pass on what it makes.
    Realistic { input_ids: Vec<u32>, max_new: u32, fold: GenerateFold },
    /// Wait for so many milliseconds, and send the responses.
    Canned { delay_ms: u64, responses: Vec<GenerateResponse> },
}

/// The plan is the one for the request.
pub open spec fn is_planned(s: MockScheduler, request: GenerateRequest, plan: Plan) -> bool {
    match s.mode {
        Mode::Sim => plan matches Plan::Sim(SimGen::Admit { request_id, input_ids, max_new }) && {
            &&& request_id@ == request.request_id@
            &&& input_ids@ == input_of(request)
            &&& max_new == budget_of(request, s.output_tokens)
        },
        Mode::Realistic => plan matches Plan::Realistic { input_ids, max_new, fold } && {
            &&& input_ids@ == input_of(request)
            &&& max_new == budget_of(request, s.output_tokens)
            &&& fold.output_ids@ == Seq::<u32>::empty()
            &&& fold.stream_chunks == request.stream
            &&& fold.request_id@ == request.request_id@
        },
        Mode::Canned => plan matches Plan::Canned { delay_ms, responses } && {
            &&& delay_ms == s.gen_delay_ms
            &&& is_canned(request.request_id@, s.output_tokens, responses@)
        },
    }
}

impl MockScheduler {
    /// Decides how a request is answered.
    pub fn generate(&self, request: GenerateRequest) -> (r: Plan)
        requires
            self.mode == Mode::Canned ==> self.output_tokens <= u32::MAX - 99,
        ensures
            is_planned(*self, request, r),
    {
        let ghost whole = request;
        let max_new: u32 = match &request.sampling_params {
            None => self.output_tokens,
            Some(p) => match p.max_new_tokens {
                None => self.output_tokens,
                Some(n) => n,
            },
        };
        match self.mode {
            Mode::Sim => {
                let input_ids: Vec<u32> = match request.tokenized {
                    None => Vec::new(),
                    Some(t) => t.input_ids,
                };
                assert(input_ids@ =~= input_of(whole));
                Plan::Sim(SimGen::Admit { request_id: request.request_id, input_ids, max_new })
            },
            Mode::Realistic => {
                let input_ids: Vec<u32> = match request.tokenized {
                    None => Vec::new(),
                    Some(t) => t.input_ids,
                };
                assert(input_ids@ =~= input_of(whole));
                Plan::Realistic {
                    input_ids,
                    max_new,
                    fold: GenerateFold {
                        output_ids: Vec::new(),
                        stream_chunks: request.stream,
                        request_id: request.request_id,
                    },
                }
            },
            Mode::Canned => Plan::Canned {
                delay_ms: self.gen_delay_ms,
                responses: canned(request.request_id.as_str(), self.output_tokens),
            },
        }
    }

    /// Whether cache events can be had, and what is said if not.
    pub fn subscribe_kv_events(&self) -> (r: Result<(), Status>)
        ensures
            match r {
                Ok(_) => self.kv_events && self.mode != Mode::Canned,
                Err(e) => !(self.kv_events && self.mode != Mode::Canned) && e.is(
                    Code::Unimplemented,
                    if self.mode == Mode::Sim {
                        "mock-worker (sim KV events off)"@
                    } else {
                        "mock-worker (KV events require --engine realistic with --prefix-cache true)"@
                    },
                ),
            },
    {
        if self.mode == Mode::Sim {
            if self.kv_events {
                Ok(())
            } else {
                Err(Status::new(Code::Unimplemented, "mock-worker (sim KV events off)"))
            }
        } else if self.mode == Mode::Realistic && self.kv_events {
            Ok(())
        } else {
            Err(
                Status::new(
                    Code::Unimplemented,
                    "mock-worker (KV events require --engine realistic with --prefix-cache true)",
                ),
            )
        }
    }
}

fn canned(request_id: &str, n: u32) -> (r: Vec<GenerateResponse>)
    requires
        n <= u32::MAX - 99,
    ensures
        is_canned(request_id@, n, r@),
{
    let mut ids: Vec<u32> = Vec::new();
    let mut out: Vec<GenerateResponse> = Vec::new();
    let mut i: u32 = 0;
    while i < n
        invariant
            i <= n <= u32::MAX - 99,
            ids@ == canned_ids(i),
            out@.len() == i,
            forall|j: int|
                0 <= j < i ==> is_chunk(
                    #[trigger] out@[j],
                    request_id@,
                    (ChunkView {
                        token_ids: seq![canned_id(j)],
                        prompt_tokens: 1,
                        completion_tokens: 1,
                        cached_tokens: 0,
                    }),
                ),
        decreases n - i,
    {
        let id: u32 = 100 + i;
        ids.push(id);
        let mut one: Vec<u32> = Vec::new();
        one.push(id);
        assert(one@ =~= seq![canned_id(i as int)]);
        out.push(chunk(request_id, one, 1, 1, 0));
        i = i + 1;
        assert(ids@ =~= canned_ids(i));
    }
    out.push(complete(request_id, ids, "stop", 1, n, 0));
    out
}

impl SimGen {
    /// The worker can take the next step.
    pub open spec fn ready(self, worker: SimWorker) -> bool {
        &&& worker.wf()
        &&& worker@.params.block_size > 0
        &&& match self {
            SimGen::Admit { request_id, input_ids, max_new } => {
                &&& worker@.waiting > 0
                &&& worker@.running < usize::MAX
                &&& input_ids@.len() <= i64::MAX
                &&& worker@.waiting_uncached_tokens - input_ids@.len() >= i64::MIN
                &&& worker@.running_tokens + input_ids@.len() + max_new <= u64::MAX
                &&& worker.work() + 2 * input_ids@.len() <= u64::MAX
            },
            SimGen::Prefill { request_id, max_new, adm } => {
                &&& adm.guard@.wf()
                &&& worker.work() + adm.guard@.chain.len() <= u64::MAX
                &&& adm.cached_tokens <= adm.prompt_tokens
            },
            SimGen::Decode { request_id, max_new, adm } => {
                &&& adm.guard@.wf()
                &&& adm.guard.span() <= usize::MAX
                &&& worker.work() + adm.guard@.chain.len() + adm.guard.span() <= u64::MAX
            },
            SimGen::Done => true,
        }
    }

    /// How often the next step may touch or pin a cache block.
    pub open spec fn cost(self) -> nat {
        match self {
            SimGen::Admit { request_id, input_ids, max_new } => 2 * input_ids@.len(),
            SimGen::Prefill { request_id, max_new, adm } => adm.guard@.chain.len(),
            SimGen::Decode { request_id, max_new, adm } => adm.guard@.chain.len()
                + adm.guard.span(),
            SimGen::Done => 0,
        }
    }

    /// `next` and `action` follow, and the worker is as in `post`.
    pub open spec fn goes_on(
        self,
        pre: SimView,
        post: SimView,
        next: SimGen,
        action: SimAction,
    ) -> bool {
        match self {
            SimGen::Admit { request_id, input_ids, max_new } => {
                &&& post == pre.admitted(input_ids@, max_new)
                &&& next matches SimGen::Prefill { request_id: r, max_new: m, adm } && {
                    &&& r == request_id
                    &&& m == max_new
                    &&& adm.guard@ == pre.request(input_ids@, max_new)
                    &&& adm.guard@.wf()
                    &&& adm.prompt_tokens == input_ids@.len()
                    &&& adm.cached_tokens == pre.hit(input_ids@) * pre.params.block_size
                    &&& adm.cached_tokens <= adm.prompt_tokens
                    &&& adm.output_ids@ == adm.guard@.output
                    &&& action == (SimAction::AwaitPrefill {
                        uncached: (adm.prompt_tokens - adm.cached_tokens) as usize,
                    })
                }
            },
            SimGen::Prefill { request_id, max_new, adm } => {
                &&& post == pre.prefilled(adm.guard@)
                &&& next matches SimGen::Decode { request_id: r, max_new: m, adm: a } && {
                    &&& r == request_id
                    &&& m == max_new
                    &&& a.guard@ == adm.guard@.after_prefill()
                    &&& a.guard@.wf()
                    &&& a.output_ids == adm.output_ids
                    &&& a.prompt_tokens == adm.prompt_tokens
                    &&& a.cached_tokens == adm.cached_tokens
                }
                &&& action matches SimAction::SendAndDecode { first, tokens } && {
                    &&& tokens == max_new
                    &&& is_chunk(
                        first,
                        request_id@,
                        (ChunkView {
                            token_ids: if adm.output_ids@.len() == 0 {
                                Seq::empty()
                            } else {
                                seq![adm.output_ids@[0]]
                            },
                            prompt_tokens: adm.prompt_tokens as u32,
                            completion_tokens: 1,
                            cached_tokens: adm.cached_tokens as u32,
                        }),
                    )
                }
            },
            SimGen::Decode { request_id, max_new, adm } => {
                &&& post == pre.completed(adm.guard@)
                &&& next is Done
                &&& action matches SimAction::SendLast(last) && is_complete(
                    last,
                    request_id@,
                    (CompleteView {
                        output_ids: adm.output_ids@,
                        finish_reason: "stop"@,
                        prompt_tokens: adm.prompt_tokens as u32,
                        completion_tokens: max_new,
                        cached_tokens: adm.cached_tokens as u32,
                    }),
                )
            },
            SimGen::Done => post == pre && next is Done && action is End,
        }
    }

    /// Takes the next step: after the request got its slot, after the wait for
    /// prefill, after the wait for decoding.
    pub fn advance(self, worker: &mut SimWorker) -> (r: (SimAction, SimGen))
        requires
            self.ready(*old(worker)),
        ensures
            final(worker).wf(),
            self.goes_on(old(worker)@, final(worker)@, r.1, r.0),
            final(worker).work() <= old(worker).work() + self.cost(),
    {
        match self {
            SimGen::Admit { request_id, input_ids, max_new } => {
                let ghost pre = worker@;
                let ghost ids = input_ids@;
                let adm = worker.admit_request(input_ids, max_new);
                proof {
                    let block = pre.params.block_size as int;
                    let n = pre.hit(ids);
                    assert(n * block <= ids.len()) by (nonlinear_arith)
                        requires
                            block > 0,
                            0 <= n <= ids.len() as int / block,
                    ;
                }
                let uncached: usize = adm.prompt_tokens - adm.cached_tokens;
                (
                    SimAction::AwaitPrefill { uncached },
                    SimGen::Prefill { request_id, max_new, adm },
                )
            },
            SimGen::Prefill { request_id, max_new, adm } => {
                let mut adm = adm;
                adm.finish_prefill(worker);
                let mut token_ids: Vec<u32> = Vec::new();
                if adm.output_ids.len() > 0 {
                    token_ids.push(adm.output_ids[0]);
                }
                proof {
                    if adm.output_ids@.len() > 0 {
                        assert(token_ids@ =~= seq![adm.output_ids@[0]]);
                    }
                }
                let first = chunk(
                    request_id.as_str(),
                    token_ids,
                    #[verifier::truncate] (adm.prompt_tokens as u32),
                    1,
                    #[verifier::truncate] (adm.cached_tokens as u32),
                );
                (
                    SimAction::SendAndDecode { first, tokens: max_new },
                    SimGen::Decode { request_id, max_new, adm },
                )
            },
            SimGen::Decode { request_id, max_new, adm } => {
                let Admitted {
                    prompt_tokens,
                    cached_tokens,
                    output_ids,
                    request_id: _,
                    worker_port: _,
                    guard,
                } = adm;
                let last = complete(
                    request_id.as_str(),
                    output_ids,
                    "stop",
                    #[verifier::truncate] (prompt_tokens as u32),
                    max_new,
                    #[verifier::truncate] (cached_tokens as u32),
                );
                guard.release(worker);
                (SimAction::SendLast(last), SimGen::Done)
            },
            SimGen::Done => (SimAction::End, SimGen::Done),
        }
    }

    /// Gives a generation up: what it holds is released.
    pub fn abandon(self, worker: &mut SimWorker)
        requires
            old(worker).wf(),
            old(worker)@.params.block_size > 0,
            match self {
                SimGen::Prefill { request_id, max_new, adm } => adm.guard@.wf()
                    && adm.guard.span() <= usize::MAX && old(worker).work()
                    + adm.guard@.chain.len() + adm.guard.span() <= u64::MAX,
                SimGen::Decode { request_id, max_new, adm } => adm.guard@.wf() && adm.guard.span()
                    <= usize::MAX && old(worker).work() + adm.guard@.chain.len()
                    + adm.guard.span() <= u64::MAX,
                _ => true,
            },
        ensures
            final(worker).wf(),
            final(worker)@ == match self {
                SimGen::Prefill { request_id, max_new, adm } => old(worker)@.completed(adm.guard@),
                SimGen::Decode { request_id, max_new, adm } => old(worker)@.completed(adm.guard@),
                _ => old(worker)@,
            },
    {
        match self {
            SimGen::Prefill { request_id, max_new, adm } => {
                adm.complete(worker);
            },
            SimGen::Decode { request_id, max_new, adm } => {
                adm.complete(worker);
            },
            _ => {},
        }
    }
}

/// What the realistic engine makes.
pub enum GenEvent {
    Token { token_id: u32, prompt_tokens: u32, cached_tokens: u32 },
    Done { finish_reason: String, prompt_total: u32, completion_tokens: u32, cached_total: u32 },
}

/// The stream of an engine's events on its way to a client: each token goes out
/// at once if the client asked for that, and all of them with the completion.
pub struct GenerateFold {
    pub output_ids: Vec<u32>,
    pub stream_chunks: bool,
    pub request_id: String,
}

/// What one event leads to, and what goes out.
pub open spec fn folds(
    pre: GenerateFold,
    event: GenEvent,
    post: GenerateFold,
    r: Option<GenerateResponse>,
) -> bool {
    &&& post.stream_chunks == pre.stream_chunks
    &&& post.request_id == pre.request_id
    &&& match event {
        GenEvent::Token { token_id, prompt_tokens, cached_tokens } => {
            &&& post.output_ids@ == pre.output_ids@.push(token_id)
            &&& r is Some <==> pre.stream_chunks
            &&& r is Some ==> is_chunk(
                r->0,
                pre.request_id@,
                (ChunkView {
                    token_ids: seq![token_id],
                    prompt_tokens,
                    completion_tokens: post.output_ids@.len() as u32,
                    cached_tokens,
                }),
            )
        },
        GenEvent::Done { finish_reason, prompt_total, completion_tokens, cached_total } => {
            &&& post.output_ids@ == Seq::<u32>::empty()
            &&& r is Some
            &&& is_complete(
                r->0,
                pre.request_id@,
                (CompleteView {
                    output_ids: pre.output_ids@,
                    finish_reason: finish_reason@,
                    prompt_tokens: prompt_total,
                    completion_tokens,
                    cached_tokens: cached_total,
                }),
            )
        },
    }
}

impl GenerateFold {
    /// Takes one event; returns what goes out.
    pub fn step(&mut self, event: GenEvent) -> (r: Option<GenerateResponse>)
        ensures
            folds(*old(self), event, *final(self), r),
    {
        match event {
            GenEvent::Token { token_id, prompt_tokens, cached_tokens } => {
                self.output_ids.push(token_id);
                if self.stream_chunks {
                    let mut one: Vec<u32> = Vec::new();
                    one.push(token_id);
                    assert(one@ =~= seq![token_id]);
                    let sent: u32 = #[verifier::truncate] (self.output_ids.len() as u32);
                    Some(chunk(self.request_id.as_str(), one, prompt_tokens, sent, cached_tokens))
                } else {
                    None
                }
            },
            GenEvent::Done { finish_reason, prompt_total, completion_tokens, cached_total } => {
                let mut output_ids: Vec<u32> = Vec::new();
                std::mem::swap(&mut output_ids, &mut self.output_ids);
                Some(
                    complete(
                        self.request_id.as_str(),
                        output_ids,
                        finish_reason.as_str(),
                        prompt_total,
                        completion_tokens,
                        cached_total,
                    ),
                )
            },
        }
    }
}

/// A block of a simulated worker's cache.
pub struct SimKvBlock {
    pub hash: u64,
    pub token_ids: Vec<u32>,
}

/// A change of a simulated worker's cache.
pub enum SimKvEvent {
    Stored { parent: Option<u64>, blocks: Vec<SimKvBlock> },
    Removed { hashes: Vec<u64> },
}

/// Changes of a simulated worker's cache that belong together.
pub struct SimKvBatch {
    pub seq: u64,
    pub events: Vec<SimKvEvent>,
}

/// A hash as the same 64 bits with a sign.
pub open spec fn signed_hash(h: u64) -> i64 {
    if h > i64::MAX {
        (h - 0x1_0000_0000_0000_0000) as i64
    } else {
        h as i64
    }
}

/// The bits survive the way to the wire and back.
pub proof fn hashes_round_trip(h: u64)
    ensures
        unsigned(signed_hash(h)) == h,
{
}

fn to_signed(h: u64) -> (r: i64)
    ensures
        r == signed_hash(h),
{
    if h > i64::MAX as u64 {
        let low: u64 = h - 0x8000_0000_0000_0000;
        (low as i64) + i64::MIN
    } else {
        h as i64
    }
}

/// The block on the wire is the one of the cache.
pub open spec fn block_matches(b: SimKvBlock, block_size: i32, w: KvBlock) -> bool {
    &&& w.block_hash == signed_hash(b.hash)
    &&& w.token_ids@ == b.token_ids@
    &&& w.block_size == block_size
}

/// The event on the wire is the one of the cache.
pub open spec fn event_matches(e: SimKvEvent, seq: u64, block_size: i32, w: KvCacheEvent) -> bool {
    &&& w.event_id == seq
    &&& match e {
        SimKvEvent::Stored { parent, blocks } => w.data matches Some(
            KvData::Stored { parent_block_hash, blocks: sent },
        ) && {
            &&& parent_block_hash == match parent {
                None => None,
                Some(h) => Some(signed_hash(h)),
            }
            &&& sent@.len() == blocks@.len()
            &&& forall|i: int|
                0 <= i < blocks@.len() ==> block_matches(blocks@[i], block_size, #[trigger] sent@[i])
        },
        SimKvEvent::Removed { hashes } => w.data matches Some(KvData::Removed { block_hashes })
            && block_hashes@ == hashes@.map_values(|h: u64| signed_hash(h)),
    }
}

fn send_blocks(blocks: &Vec<SimKvBlock>, block_size: i32) -> (r: Vec<KvBlock>)
    ensures
        r@.len() == blocks@.len(),
        forall|i: int| 0 <= i < blocks@.len() ==> block_matches(blocks@[i], block_size, #[trigger] r@[i]),
{
    let mut out: Vec<KvBlock> = Vec::new();
    let mut i: usize = 0;
    while i < blocks.len()
        invariant
            i <= blocks@.len(),
            out@.len() == i,
            forall|j: int| 0 <= j < i ==> block_matches(blocks@[j], block_size, #[trigger] out@[j]),
        decreases blocks@.len() - i,
    {
        let b = &blocks[i];
        let mut token_ids: Vec<u32> = Vec::new();
        let mut k: usize = 0;
        while k < b.token_ids.len()
            invariant
                k <= b.token_ids@.len(),
                token_ids@ == b.token_ids@.take(k as int),
            decreases b.token_ids@.len() - k,
        {
            token_ids.push(b.token_ids[k]);
            k = k + 1;
            assert(token_ids@ =~= b.token_ids@.take(k as int));
        }
        assert(token_ids@ =~= b.token_ids@);
        out.push(KvBlock { block_hash: to_signed(b.hash), token_ids, block_size });
        i = i + 1;
    }
    out
}

/// Turns a simulated worker's batch into the one on the wire: the chained block
/// hash is the key for parents and removals, the tokens are what is matched.
pub fn sim_batch_to_proto(batch: &SimKvBatch, block_size: i32) -> (r: KvEventBatch)
    ensures
        r.sequence_number == batch.seq,
        r.events@.len() == batch.events@.len(),
        forall|i: int|
            0 <= i < batch.events@.len() ==> event_matches(
                batch.events@[i],
                batch.seq,
                block_size,
                #[trigger] r.events@[i],
            ),
{
    let mut events: Vec<KvCacheEvent> = Vec::new();
    let mut i: usize = 0;
    while i < batch.events.len()
        invariant
            i <= batch.events@.len(),
            events@.len() == i,
            forall|j: int|
                0 <= j < i ==> event_matches(
                    batch.events@[j],
                    batch.seq,
                    block_size,
                    #[trigger] events@[j],
                ),
        decreases batch.events@.len() - i,
    {
        let data = match &batch.events[i] {
            SimKvEvent::Stored { parent, blocks } => KvData::Stored {
                parent_block_hash: match parent {
                    None => None,
                    Some(h) => Some(to_signed(*h)),
                },
                blocks: send_blocks(blocks, block_size),
            },
            SimKvEvent::Removed { hashes } => {
                let mut block_hashes: Vec<i64> = Vec::new();
                let mut k: usize = 0;
                while k < hashes.len()
                    invariant
                        k <= hashes@.len(),
                        block_hashes@ == hashes@.take(k as int).map_values(
                            |h: u64| signed_hash(h),
                        ),
                    decreases hashes@.len() - k,
                {
                    block_hashes.push(to_signed(hashes[k]));
                    k = k + 1;
                    assert(block_hashes@ =~= hashes@.take(k as int).map_values(
                        |h: u64| signed_hash(h),
                    ));
                }
                assert(hashes@.take(k as int) =~= hashes@);
                KvData::Removed { block_hashes }
            },
        };
        events.push(KvCacheEvent { event_id: batch.seq, data: Some(data) });
        i = i + 1;
    }
    KvEventBatch { sequence_number: batch.seq, events }
}

/// A scheduler's load, but for its rates.
#[derive(Debug, Clone, Copy, PartialEq, Eq, Structural)]
pub struct SchedulerLoad {
    pub dp_rank: i32,
    pub num_running_reqs: i32,
    pub num_waiting_reqs: i32,
    pub num_waiting_uncached_tokens: i32,
    pub num_total_reqs: i32,
    pub num_used_tokens: i32,
    pub max_total_num_tokens: i32,
    pub max_running_requests: i32,
}

/// The load of a simulated worker on the wire.
pub open spec fn sim_load_of(s: SimLoad) -> SchedulerLoad {
    SchedulerLoad {
        dp_rank: 0,
        num_running_reqs: s.num_running_reqs as i32,
        num_waiting_reqs: s.num_waiting_reqs as i32,
        num_waiting_uncached_tokens: s.num_waiting_uncached_tokens as i32,
        num_total_reqs: (s.num_running_reqs + s.num_waiting_reqs) as i32,
        num_used_tokens: s.num_used_tokens as i32,
        max_total_num_tokens: s.max_total_num_tokens as i32,
        max_running_requests: s.max_running_requests as i32,
    }
}

/// The load of a simulated worker on the wire.
pub fn sim_to_scheduler_load(s: &SimLoad) -> (r: SchedulerLoad)
    requires
        i64::MIN <= s.num_running_reqs + s.num_waiting_reqs <= i64::MAX,
    ensures
        r == sim_load_of(*s),
{
    let total: i64 = s.num_running_reqs + s.num_waiting_reqs;
    SchedulerLoad {
        dp_rank: 0,
        num_running_reqs: #[verifier::truncate] (s.num_running_reqs as i32),
        num_waiting_reqs: #[verifier::truncate] (s.num_waiting_reqs as i32),
        num_waiting_uncached_tokens: #[verifier::truncate] (s.num_waiting_uncached_tokens as i32),
        num_total_reqs: #[verifier::truncate] (total as i32),
        num_used_tokens: #[verifier::truncate] (s.num_used_tokens as i32),
        max_total_num_tokens: #[verifier::truncate] (s.max_total_num_tokens as i32),
        max_running_requests: #[verifier::truncate] (s.max_running_requests as i32),
    }
}

/// The load of a worker that neither simulates nor runs an engine.
pub open spec fn idle_load_of() -> SchedulerLoad {
    SchedulerLoad {
        dp_rank: 0,
        num_running_reqs: 0,
        num_waiting_reqs: 0,
        num_waiting_uncached_tokens: 0,
        num_total_reqs: 0,
        num_used_tokens: 0,
        max_total_num_tokens: 1_000_000,
        max_running_requests: 0,
    }
}

/// The load of a worker that neither simulates nor runs an engine.
pub fn idle_load() -> (r: SchedulerLoad)
    ensures
        r == idle_load_of(),
{
    SchedulerLoad {
        dp_rank: 0,
        num_running_reqs: 0,
        num_waiting_reqs: 0,
        num_waiting_uncached_tokens: 0,
        num_total_reqs: 0,
        num_used_tokens: 0,
        max_total_num_tokens: 1_000_000,
        max_running_requests: 0,
    }
}

/// What an engine reports, but for its rates.
pub struct LoadSnapshot {
    pub num_running_reqs: i32,
    pub num_waiting_reqs: i32,
    pub num_waiting_uncached_tokens: i32,
    pub num_used_tokens: i32,
    pub max_total_num_tokens: i32,
    pub max_running_requests: i32,
}

/// The load of an engine on the wire.
pub open spec fn engine_load_of(s: LoadSnapshot) -> SchedulerLoad {
    SchedulerLoad {
        dp_rank: 0,
        num_running_reqs: s.num_running_reqs,
        num_waiting_reqs: s.num_waiting_reqs,
        num_waiting_uncached_tokens: s.num_waiting_uncached_tokens,
        num_total_reqs: (s.num_running_reqs + s.num_waiting_reqs) as i32,
        num_used_tokens: s.num_used_tokens,
        max_total_num_tokens: s.max_total_num_tokens,
        max_running_requests: s.max_running_requests,
    }
}

/// The load of an engine on the wire.
pub fn snapshot_to_scheduler_load(s: &LoadSnapshot) -> (r: SchedulerLoad)
    requires
        i32::MIN <= s.num_running_reqs + s.num_waiting_reqs <= i32::MAX,
    ensures
        r == engine_load_of(*s),
{
    SchedulerLoad {
        dp_rank: 0,
        num_running_reqs: s.num_running_reqs,
        num_waiting_reqs: s.num_waiting_reqs,
        num_waiting_uncached_tokens: s.num_waiting_uncached_tokens,
        num_total_reqs: s.num_running_reqs + s.num_waiting_reqs,
        num_used_tokens: s.num_used_tokens,
        max_total_num_tokens: s.max_total_num_tokens,
        max_running_requests: s.max_running_requests,
    }
}

/// What a worker says of its model.
pub struct ModelInfo {
    pub model_path: String,
    pub tokenizer_path: String,
    pub served_model_name: String,
    pub model_type: String,
    pub architectures: Vec<String>,
    pub max_context_length: i32,
    pub max_req_input_len: i32,
    pub vocab_size: i32,
    pub eos_token_ids: Vec<i32>,
    pub pad_token_id: i32,
    pub bos_token_id: i32,
    pub weight_version: String,
    pub default_sampling_params_json: String,
    pub supports_vision: bool,
}

/// What a worker says of itself. Arguments, scheduler and start time are left
/// out of it.
pub struct ServerInfo {
    pub active_requests: i32,
    pub is_paused: bool,
    pub uptime_seconds: u64,
    pub max_total_num_tokens: i32,
    pub tokenspeed_version: String,
}

/// The model of a mock worker.
pub open spec fn is_mock_model(
    m: ModelInfo,
    model_id: Seq<char>,
    tokenizer_path: Seq<char>,
) -> bool {
    &&& m.model_path@ == model_id
    &&& m.tokenizer_path@ == tokenizer_path
    &&& m.served_model_name@ == model_id
    &&& m.model_type@ == "mock"@
    &&& views(m.architectures@) == seq!["MockForCausalLM"@]
    &&& m.max_context_length == 32768
    &&& m.max_req_input_len == 32768
    &&& m.vocab_size == 32000
    &&& m.eos_token_ids@ == seq![2i32]
    &&& m.pad_token_id == 0
    &&& m.bos_token_id == 1
    &&& m.weight_version@ == "mock"@
    &&& m.default_sampling_params_json@ == ""@
    &&& !m.supports_vision
}

/// What a worker says of its load, but for its rates.
pub struct LoadsResponse {
    pub timestamp: String,
    pub version: String,
    pub dp_rank_count: i32,
    pub loads: Vec<SchedulerLoad>,
}

/// What a worker's load is taken from.
pub enum LoadSource {
    Sim(SimLoad),
    Engine(LoadSnapshot),
    Nothing,
}

impl MockScheduler {
    /// A mock worker is well.
    pub fn health_check(&self) -> (r: (bool, String))
        ensures
            r.0,
            r.1@ == "ok"@,
    {
        (true, "ok".to_owned())
    }

    /// An abort succeeds: requests end with their streams.
    pub fn abort(&self) -> (r: (bool, String))
        ensures
            r.0,
            r.1@ == ""@,
    {
        (true, "".to_owned())
    }

    /// What the worker says of its model.
    pub fn get_model_info(&self, model_id: &str, tokenizer_path: &str) -> (r: ModelInfo)
        ensures
            is_mock_model(r, model_id@, tokenizer_path@),
    {
        let mut architectures: Vec<String> = Vec::new();
        architectures.push("MockForCausalLM".to_owned());
        let mut eos_token_ids: Vec<i32> = Vec::new();
        eos_token_ids.push(2);
        proof {
            assert(views(architectures@) =~= seq!["MockForCausalLM"@]);
            assert(eos_token_ids@ =~= seq![2i32]);
        }
        ModelInfo {
            model_path: model_id.to_owned(),
            tokenizer_path: tokenizer_path.to_owned(),
            served_model_name: model_id.to_owned(),
            model_type: "mock".to_owned(),
            architectures,
            max_context_length: 32768,
            max_req_input_len: 32768,
            vocab_size: 32000,
            eos_token_ids,
            pad_token_id: 0,
            bos_token_id: 1,
            weight_version: "mock".to_owned(),
            default_sampling_params_json: "".to_owned(),
            supports_vision: false,
        }
    }

    /// What the worker says of itself.
    pub fn get_server_info(&self) -> (r: ServerInfo)
        ensures
            r.active_requests == 0,
            !r.is_paused,
            r.uptime_seconds == 0,
            r.max_total_num_tokens == 1_000_000,
            r.tokenspeed_version@ == "mock"@,
    {
        ServerInfo {
            active_requests: 0,
            is_paused: false,
            uptime_seconds: 0,
            max_total_num_tokens: 1_000_000,
            tokenspeed_version: "mock".to_owned(),
        }
    }

    /// What the worker says of its load.
    pub fn get_loads(&self, source: &LoadSource) -> (r: LoadsResponse)
        requires
            match *source {
                LoadSource::Sim(s) => i64::MIN <= s.num_running_reqs + s.num_waiting_reqs
                    <= i64::MAX,
                LoadSource::Engine(s) => i32::MIN <= s.num_running_reqs + s.num_waiting_reqs
                    <= i32::MAX,
                LoadSource::Nothing => true,
            },
        ensures
            r.timestamp@ == ""@,
            r.version@ == "mock"@,
            r.dp_rank_count == 1,
            r.loads@ == seq![
                match *source {
                    LoadSource::Sim(s) => sim_load_of(s),
                    LoadSource::Engine(s) => engine_load_of(s),
                    LoadSource::Nothing => idle_load_of(),
                },
            ],
    {
        let load: SchedulerLoad = match source {
            LoadSource::Sim(s) => sim_to_scheduler_load(s),
            LoadSource::Engine(s) => snapshot_to_scheduler_load(s),
            LoadSource::Nothing => idle_load(),
        };
        let mut loads: Vec<SchedulerLoad> = Vec::new();
        loads.push(load);
        assert(loads@ =~= seq![load]);
        LoadsResponse {
            timestamp: "".to_owned(),
            version: "mock".to_owned(),
            dp_rank_count: 1,
            loads,
        }
    }

    /// What is said of calls that a mock worker does not have: flushing the
    /// cache, profiling, its tokenizer.
    pub fn unsupported(&self) -> (r: Status)
        ensures
            r.is(Code::Unimplemented, "mock-worker"@),
    {
        Status::new(Code::Unimplemented, "mock-worker")
    }
}

} // verus!
