//! Text generation between a router and workers: one wire contract for every
//! engine, and the conversions from and to the engines' own messages.

pub mod laws;
pub mod sglang;
pub mod tokenspeed;
pub mod worker;

use crate::json;
use crate::json::json_tree;
use crate::json::JsonView;
use crate::status::Code;
use crate::status::Status;
use crate::text::same_text;
use serde_json::Value;
use std::collections::HashMap;
use vstd::prelude::*;

verus! {

/// The bits of a 32-bit floating-point number.
#[derive(Debug, Clone, Copy, Default, PartialEq, Eq)]
pub struct Bits32(pub u32);

// ── Between TokenSpeed and the worker contract ──────────────────────────────

/// A constraint of the worker contract.
pub open spec fn worker_constraint(c: tokenspeed::Constraint) -> worker::Constraint {
    match c {
        tokenspeed::Constraint::Regex(s) => worker::Constraint::Regex(s),
        tokenspeed::Constraint::JsonSchema(s) => worker::Constraint::JsonSchema(s),
        tokenspeed::Constraint::EbnfGrammar(s) => worker::Constraint::EbnfGrammar(s),
        tokenspeed::Constraint::StructuralTag(s) => worker::Constraint::StructuralTag(s),
    }
}

/// A constraint of TokenSpeed.
pub open spec fn tokenspeed_constraint(c: worker::Constraint) -> tokenspeed::Constraint {
    match c {
        worker::Constraint::Regex(s) => tokenspeed::Constraint::Regex(s),
        worker::Constraint::JsonSchema(s) => tokenspeed::Constraint::JsonSchema(s),
        worker::Constraint::EbnfGrammar(s) => tokenspeed::Constraint::EbnfGrammar(s),
        worker::Constraint::StructuralTag(s) => tokenspeed::Constraint::StructuralTag(s),
    }
}

/// Sampling parameters of the worker contract.
pub open spec fn worker_sampling(p: tokenspeed::SamplingParams) -> worker::SamplingParams {
    worker::SamplingParams {
        temperature: p.temperature,
        top_p: p.top_p,
        top_k: p.top_k,
        min_p: p.min_p,
        frequency_penalty: p.frequency_penalty,
        presence_penalty: p.presence_penalty,
        repetition_penalty: p.repetition_penalty,
        max_new_tokens: p.max_new_tokens,
        min_new_tokens: p.min_new_tokens,
        stop: p.stop,
        stop_token_ids: p.stop_token_ids,
        ignore_eos: p.ignore_eos,
        skip_special_tokens: p.skip_special_tokens,
        spaces_between_special_tokens: p.spaces_between_special_tokens,
        n: p.n,
        logit_bias: p.logit_bias,
        constraint: match p.constraint {
            None => None,
            Some(c) => Some(worker_constraint(c)),
        },
        engine_parameters: p.custom_params,
        no_stop_trim: p.no_stop_trim,
        sampling_seed: p.sampling_seed,
    }
}

/// Sampling parameters of TokenSpeed.
pub open spec fn tokenspeed_sampling(p: worker::SamplingParams) -> tokenspeed::SamplingParams {
    tokenspeed::SamplingParams {
        temperature: p.temperature,
        top_p: p.top_p,
        top_k: p.top_k,
        min_p: p.min_p,
        frequency_penalty: p.frequency_penalty,
        presence_penalty: p.presence_penalty,
        repetition_penalty: p.repetition_penalty,
        max_new_tokens: p.max_new_tokens,
        min_new_tokens: p.min_new_tokens,
        stop: p.stop,
        stop_token_ids: p.stop_token_ids,
        ignore_eos: p.ignore_eos,
        skip_special_tokens: p.skip_special_tokens,
        spaces_between_special_tokens: p.spaces_between_special_tokens,
        n: p.n,
        logit_bias: p.logit_bias,
        constraint: match p.constraint {
            None => None,
            Some(c) => Some(tokenspeed_constraint(c)),
        },
        custom_params: p.engine_parameters,
        no_stop_trim: p.no_stop_trim,
        sampling_seed: p.sampling_seed,
    }
}

/// A request of the worker contract.
pub open spec fn worker_request(r: tokenspeed::GenerateRequest) -> worker::GenerateRequest {
    worker::GenerateRequest {
        request_id: r.request_id,
        tokenized: match r.tokenized {
            None => None,
            Some(t) => Some(
                worker::TokenizedInput { input_ids: t.input_ids, original_text: t.original_text },
            ),
        },
        sampling_params: match r.sampling_params {
            None => None,
            Some(p) => Some(worker_sampling(p)),
        },
        return_logprob: r.return_logprob,
        logprob_start_len: r.logprob_start_len,
        top_logprobs_num: r.top_logprobs_num,
        token_ids_logprob: r.token_ids_logprob,
        stream: r.stream,
        data_parallel_rank: r.data_parallel_rank,
    }
}

/// A request of TokenSpeed.
pub open spec fn tokenspeed_request(r: worker::GenerateRequest) -> tokenspeed::GenerateRequest {
    tokenspeed::GenerateRequest {
        request_id: r.request_id,
        tokenized: match r.tokenized {
            None => None,
            Some(t) => Some(
                tokenspeed::TokenizedInput {
                    input_ids: t.input_ids,
                    original_text: t.original_text,
                },
            ),
        },
        sampling_params: match r.sampling_params {
            None => None,
            Some(p) => Some(tokenspeed_sampling(p)),
        },
        return_logprob: r.return_logprob,
        logprob_start_len: r.logprob_start_len,
        top_logprobs_num: r.top_logprobs_num,
        token_ids_logprob: r.token_ids_logprob,
        stream: r.stream,
        data_parallel_rank: r.data_parallel_rank,
        mm_inputs: None,
        encode_bootstrap_info: None,
        kv_bootstrap_info: None,
    }
}

fn from_tokenspeed_sampling(params: tokenspeed::SamplingParams) -> (r: worker::SamplingParams)
    ensures
        r == worker_sampling(params),
{
    worker::SamplingParams {
        temperature: params.temperature,
        top_p: params.top_p,
        top_k: params.top_k,
        min_p: params.min_p,
        frequency_penalty: params.frequency_penalty,
        presence_penalty: params.presence_penalty,
        repetition_penalty: params.repetition_penalty,
        max_new_tokens: params.max_new_tokens,
        min_new_tokens: params.min_new_tokens,
        stop: params.stop,
        stop_token_ids: params.stop_token_ids,
        ignore_eos: params.ignore_eos,
        skip_special_tokens: params.skip_special_tokens,
        spaces_between_special_tokens: params.spaces_between_special_tokens,
        n: params.n,
        logit_bias: params.logit_bias,
        constraint: match params.constraint {
            None => None,
            Some(constraint) => Some(
                match constraint {
                    tokenspeed::Constraint::Regex(s) => worker::Constraint::Regex(s),
                    tokenspeed::Constraint::JsonSchema(s) => worker::Constraint::JsonSchema(s),
                    tokenspeed::Constraint::EbnfGrammar(s) => worker::Constraint::EbnfGrammar(s),
                    tokenspeed::Constraint::StructuralTag(s) => worker::Constraint::StructuralTag(
                        s,
                    ),
                },
            ),
        },
        engine_parameters: params.custom_params,
        no_stop_trim: params.no_stop_trim,
        sampling_seed: params.sampling_seed,
    }
}

fn into_tokenspeed_sampling(params: worker::SamplingParams) -> (r: tokenspeed::SamplingParams)
    ensures
        r == tokenspeed_sampling(params),
{
    tokenspeed::SamplingParams {
        temperature: params.temperature,
        top_p: params.top_p,
        top_k: params.top_k,
        min_p: params.min_p,
        frequency_penalty: params.frequency_penalty,
        presence_penalty: params.presence_penalty,
        repetition_penalty: params.repetition_penalty,
        max_new_tokens: params.max_new_tokens,
        min_new_tokens: params.min_new_tokens,
        stop: params.stop,
        stop_token_ids: params.stop_token_ids,
        ignore_eos: params.ignore_eos,
        skip_special_tokens: params.skip_special_tokens,
        spaces_between_special_tokens: params.spaces_between_special_tokens,
        n: params.n,
        logit_bias: params.logit_bias,
        constraint: match params.constraint {
            None => None,
            Some(constraint) => Some(
                match constraint {
                    worker::Constraint::Regex(s) => tokenspeed::Constraint::Regex(s),
                    worker::Constraint::JsonSchema(s) => tokenspeed::Constraint::JsonSchema(s),
                    worker::Constraint::EbnfGrammar(s) => tokenspeed::Constraint::EbnfGrammar(s),
                    worker::Constraint::StructuralTag(s) => tokenspeed::Constraint::StructuralTag(
                        s,
                    ),
                },
            ),
        },
        custom_params: params.engine_parameters,
        no_stop_trim: params.no_stop_trim,
        sampling_seed: params.sampling_seed,
    }
}

/// The request is the same one in the worker's form, or it is said what the worker does not
/// have.
pub open spec fn taken_over(
    request: tokenspeed::GenerateRequest,
    r: Result<worker::GenerateRequest, Status>,
) -> bool {
    match r {
        Ok(w) => {
            &&& request.mm_inputs is None
            &&& request.encode_bootstrap_info is None
            &&& request.kv_bootstrap_info is None
            &&& w == worker_request(request)
        },
        Err(e) => {
            ||| request.mm_inputs is Some && e.is(
                Code::Unimplemented,
                "WorkerInference v1 does not support multimodal inputs"@,
            )
            ||| request.mm_inputs is None && (request.encode_bootstrap_info is Some
                || request.kv_bootstrap_info is Some) && e.is(
                Code::Unimplemented,
                "WorkerInference v1 does not support disaggregated execution"@,
            )
        },
    }
}

/// Turns a TokenSpeed request into one of the worker contract. What the contract
/// has no place for is refused, never left out.
pub fn from_tokenspeed_request(request: tokenspeed::GenerateRequest) -> (r: Result<
    worker::GenerateRequest,
    Status,
>)
    ensures
        taken_over(request, r),
{
    if request.mm_inputs.is_some() {
        return Err(
            Status::new(
                Code::Unimplemented,
                "WorkerInference v1 does not support multimodal inputs",
            ),
        );
    }
    if request.encode_bootstrap_info.is_some() || request.kv_bootstrap_info.is_some() {
        return Err(
            Status::new(
                Code::Unimplemented,
                "WorkerInference v1 does not support disaggregated execution",
            ),
        );
    }
    Ok(
        worker::GenerateRequest {
            request_id: request.request_id,
            tokenized: match request.tokenized {
                None => None,
                Some(t) => Some(
                    worker::TokenizedInput {
                        input_ids: t.input_ids,
                        original_text: t.original_text,
                    },
                ),
            },
            sampling_params: match request.sampling_params {
                None => None,
                Some(p) => Some(from_tokenspeed_sampling(p)),
            },
            return_logprob: request.return_logprob,
            logprob_start_len: request.logprob_start_len,
            top_logprobs_num: request.top_logprobs_num,
            token_ids_logprob: request.token_ids_logprob,
            stream: request.stream,
            data_parallel_rank: request.data_parallel_rank,
        },
    )
}

/// Turns a request of the worker contract into a TokenSpeed one.
pub fn into_tokenspeed_request(request: worker::GenerateRequest) -> (r: tokenspeed::GenerateRequest)
    ensures
        r == tokenspeed_request(request),
{
    tokenspeed::GenerateRequest {
        request_id: request.request_id,
        tokenized: match request.tokenized {
            None => None,
            Some(t) => Some(
                tokenspeed::TokenizedInput {
                    input_ids: t.input_ids,
                    original_text: t.original_text,
                },
            ),
        },
        sampling_params: match request.sampling_params {
            None => None,
            Some(p) => Some(into_tokenspeed_sampling(p)),
        },
        return_logprob: request.return_logprob,
        logprob_start_len: request.logprob_start_len,
        top_logprobs_num: request.top_logprobs_num,
        token_ids_logprob: request.token_ids_logprob,
        stream: request.stream,
        data_parallel_rank: request.data_parallel_rank,
        mm_inputs: None,
        encode_bootstrap_info: None,
        kv_bootstrap_info: None,
    }
}

/// A request that the worker contract has room for comes back unchanged, and so
/// does every request of the contract.
pub proof fn requests_round_trip(t: tokenspeed::GenerateRequest, w: worker::GenerateRequest)
    requires
        t.mm_inputs is None,
        t.encode_bootstrap_info is None,
        t.kv_bootstrap_info is None,
    ensures
        tokenspeed_request(worker_request(t)) == t,
        worker_request(tokenspeed_request(w)) == w,
{
}

/// Two lists of log probabilities hold the same.
pub open spec fn same_logprobs(
    a: tokenspeed::OutputLogProbs,
    b: worker::OutputLogProbs,
) -> bool {
    &&& a.token_logprobs == b.token_logprobs
    &&& a.token_ids == b.token_ids
    &&& a.top_logprobs@.len() == b.top_logprobs@.len()
    &&& forall|i: int|
        #![trigger a.top_logprobs@[i]]
        #![trigger b.top_logprobs@[i]]
        0 <= i < a.top_logprobs@.len() ==> a.top_logprobs@[i].values == b.top_logprobs@[i].values
            && a.top_logprobs@[i].token_ids == b.top_logprobs@[i].token_ids
}

/// Two optional lists of log probabilities hold the same.
pub open spec fn same_optional_logprobs(
    a: Option<tokenspeed::OutputLogProbs>,
    b: Option<worker::OutputLogProbs>,
) -> bool {
    match (a, b) {
        (None, None) => true,
        (Some(x), Some(y)) => same_logprobs(x, y),
        _ => false,
    }
}

/// Two matched stops are the same.
pub open spec fn same_stop(
    a: Option<tokenspeed::MatchedStop>,
    b: Option<worker::MatchedStop>,
) -> bool {
    match (a, b) {
        (None, None) => true,
        (
            Some(tokenspeed::MatchedStop::MatchedTokenId(x)),
            Some(worker::MatchedStop::MatchedTokenId(y)),
        ) => x == y,
        (
            Some(tokenspeed::MatchedStop::MatchedStopStr(x)),
            Some(worker::MatchedStop::MatchedStopStr(y)),
        ) => x == y,
        _ => false,
    }
}

/// Two responses say the same.
pub open spec fn same_response(
    a: tokenspeed::GenerateResponse,
    b: worker::GenerateResponse,
) -> bool {
    &&& a.request_id == b.request_id
    &&& match (a.response, b.response) {
        (None, None) => true,
        (
            Some(tokenspeed::GenerateEvent::Chunk(x)),
            Some(worker::GenerateEvent::Chunk(y)),
        ) => {
            &&& x.token_ids == y.token_ids
            &&& x.prompt_tokens == y.prompt_tokens
            &&& x.completion_tokens == y.completion_tokens
            &&& x.cached_tokens == y.cached_tokens
            &&& same_optional_logprobs(x.output_logprobs, y.output_logprobs)
            &&& x.index == y.index
        },
        (
            Some(tokenspeed::GenerateEvent::Complete(x)),
            Some(worker::GenerateEvent::Complete(y)),
        ) => {
            &&& x.output_ids == y.output_ids
            &&& x.finish_reason == y.finish_reason
            &&& x.prompt_tokens == y.prompt_tokens
            &&& x.completion_tokens == y.completion_tokens
            &&& x.cached_tokens == y.cached_tokens
            &&& same_optional_logprobs(x.output_logprobs, y.output_logprobs)
            &&& same_stop(x.matched_stop, y.matched_stop)
            &&& x.index == y.index
        },
        _ => false,
    }
}

fn from_tokenspeed_logprobs(logprobs: tokenspeed::OutputLogProbs) -> (r: worker::OutputLogProbs)
    ensures
        same_logprobs(logprobs, r),
{
    let mut top: Vec<worker::TopLogProbs> = Vec::new();
    let ghost all = logprobs.top_logprobs@;
    for item in it: logprobs.top_logprobs
        invariant
            it.seq() == all,
            top@.len() == it.index(),
            forall|i: int|
                #![trigger top@[i]]
                0 <= i < top@.len() ==> top@[i].values == all[i].values && top@[i].token_ids
                    == all[i].token_ids,
    {
        top.push(worker::TopLogProbs { values: item.values, token_ids: item.token_ids });
    }
    worker::OutputLogProbs {
        token_logprobs: logprobs.token_logprobs,
        token_ids: logprobs.token_ids,
        top_logprobs: top,
    }
}

fn into_tokenspeed_logprobs(logprobs: worker::OutputLogProbs) -> (r: tokenspeed::OutputLogProbs)
    ensures
        same_logprobs(r, logprobs),
{
    let mut top: Vec<tokenspeed::TopLogProbs> = Vec::new();
    let ghost all = logprobs.top_logprobs@;
    for item in it: logprobs.top_logprobs
        invariant
            it.seq() == all,
            top@.len() == it.index(),
            forall|i: int|
                #![trigger top@[i]]
                0 <= i < top@.len() ==> top@[i].values == all[i].values && top@[i].token_ids
                    == all[i].token_ids,
    {
        top.push(tokenspeed::TopLogProbs { values: item.values, token_ids: item.token_ids });
    }
    tokenspeed::OutputLogProbs {
        token_logprobs: logprobs.token_logprobs,
        token_ids: logprobs.token_ids,
        top_logprobs: top,
    }
}

/// Turns a TokenSpeed response into one of the worker contract.
pub fn from_tokenspeed_response(response: tokenspeed::GenerateResponse) -> (r:
    worker::GenerateResponse)
    ensures
        same_response(response, r),
{
    worker::GenerateResponse {
        request_id: response.request_id,
        response: match response.response {
            None => None,
            Some(event) => Some(
                match event {
                    tokenspeed::GenerateEvent::Chunk(chunk) => worker::GenerateEvent::Chunk(
                        worker::GenerateStreamChunk {
                            token_ids: chunk.token_ids,
                            prompt_tokens: chunk.prompt_tokens,
                            completion_tokens: chunk.completion_tokens,
                            cached_tokens: chunk.cached_tokens,
                            output_logprobs: match chunk.output_logprobs {
                                None => None,
                                Some(l) => Some(from_tokenspeed_logprobs(l)),
                            },
                            index: chunk.index,
                        },
                    ),
                    tokenspeed::GenerateEvent::Complete(complete) => worker::GenerateEvent::Complete(
                        worker::GenerateComplete {
                            output_ids: complete.output_ids,
                            finish_reason: complete.finish_reason,
                            prompt_tokens: complete.prompt_tokens,
                            completion_tokens: complete.completion_tokens,
                            cached_tokens: complete.cached_tokens,
                            output_logprobs: match complete.output_logprobs {
                                None => None,
                                Some(l) => Some(from_tokenspeed_logprobs(l)),
                            },
                            matched_stop: match complete.matched_stop {
                                None => None,
                                Some(tokenspeed::MatchedStop::MatchedTokenId(id)) => Some(
                                    worker::MatchedStop::MatchedTokenId(id),
                                ),
                                Some(tokenspeed::MatchedStop::MatchedStopStr(s)) => Some(
                                    worker::MatchedStop::MatchedStopStr(s),
                                ),
                            },
                            index: complete.index,
                        },
                    ),
                },
            ),
        },
    }
}

/// Turns a response of the worker contract into a TokenSpeed one.
pub fn into_tokenspeed_response(response: worker::GenerateResponse) -> (r:
    tokenspeed::GenerateResponse)
    ensures
        same_response(r, response),
{
    tokenspeed::GenerateResponse {
        request_id: response.request_id,
        response: match response.response {
            None => None,
            Some(event) => Some(
                match event {
                    worker::GenerateEvent::Chunk(chunk) => tokenspeed::GenerateEvent::Chunk(
                        tokenspeed::GenerateStreamChunk {
                            token_ids: chunk.token_ids,
                            prompt_tokens: chunk.prompt_tokens,
                            completion_tokens: chunk.completion_tokens,
                            cached_tokens: chunk.cached_tokens,
                            output_logprobs: match chunk.output_logprobs {
                                None => None,
                                Some(l) => Some(into_tokenspeed_logprobs(l)),
                            },
                            index: chunk.index,
                        },
                    ),
                    worker::GenerateEvent::Complete(complete) => tokenspeed::GenerateEvent::Complete(
                        tokenspeed::GenerateComplete {
                            output_ids: complete.output_ids,
                            finish_reason: complete.finish_reason,
                            prompt_tokens: complete.prompt_tokens,
                            completion_tokens: complete.completion_tokens,
                            cached_tokens: complete.cached_tokens,
                            output_logprobs: match complete.output_logprobs {
                                None => None,
                                Some(l) => Some(into_tokenspeed_logprobs(l)),
                            },
                            matched_stop: match complete.matched_stop {
                                None => None,
                                Some(worker::MatchedStop::MatchedTokenId(id)) => Some(
                                    tokenspeed::MatchedStop::MatchedTokenId(id),
                                ),
                                Some(worker::MatchedStop::MatchedStopStr(s)) => Some(
                                    tokenspeed::MatchedStop::MatchedStopStr(s),
                                ),
                            },
                            index: complete.index,
                        },
                    ),
                },
            ),
        },
    }
}

// ── From the worker contract to SGLang, and back ────────────────────────────

/// What is said of a number that SGLang has no place for.
pub open spec fn range_message(field: Seq<char>) -> Seq<char> {
    field + " is outside SGLang's signed 32-bit range"@
}

fn numeric_range_error(field: &str) -> (r: Status)
    ensures
        r.is(Code::InvalidArgument, range_message(field@)),
{
    let mut message = field.to_owned();
    message.append(" is outside SGLang's signed 32-bit range");
    Status { code: Code::InvalidArgument, message }
}

/// Numbers that an `i32` holds.
pub open spec fn signed(ids: Seq<u32>) -> Seq<i32> {
    ids.map_values(|x: u32| x as i32)
}

/// Every number fits an `i32`.
pub open spec fn all_fit(ids: Seq<u32>) -> bool {
    forall|i: int| 0 <= i < ids.len() ==> (#[trigger] ids[i]) <= i32::MAX
}

fn to_signed(ids: &Vec<u32>, field: &str) -> (r: Result<Vec<i32>, Status>)
    ensures
        match r {
            Ok(v) => all_fit(ids@) && v@ == signed(ids@),
            Err(e) => !all_fit(ids@) && e.is(Code::InvalidArgument, range_message(field@)),
        },
{
    let mut out: Vec<i32> = Vec::new();
    let mut i: usize = 0;
    while i < ids.len()
        invariant
            i <= ids@.len(),
            all_fit(ids@.take(i as int)),
            out@ == signed(ids@.take(i as int)),
        decreases ids@.len() - i,
    {
        if ids[i] > i32::MAX as u32 {
            assert(!all_fit(ids@)) by {
                assert(ids@[i as int] > i32::MAX);
            }
            return Err(numeric_range_error(field));
        }
        out.push(ids[i] as i32);
        proof {
            let now = ids@.take(i + 1);
            assert forall|j: int| 0 <= j < now.len() implies (#[trigger] now[j]) <= i32::MAX by {
                if j < i {
                    assert(ids@.take(i as int)[j] == now[j]);
                }
            }
            assert(out@ =~= signed(now));
        }
        i = i + 1;
    }
    assert(ids@.take(i as int) =~= ids@);
    Ok(out)
}

/// The number of sampling parameters that SGLang has no place for, if there is
/// one: the first in this order.
pub open spec fn sampling_misfit(p: worker::SamplingParams) -> Option<Seq<char>> {
    if p.max_new_tokens is Some && p.max_new_tokens->0 > i32::MAX {
        Some("max_new_tokens"@)
    } else if p.min_new_tokens > i32::MAX {
        Some("min_new_tokens"@)
    } else if !all_fit(p.stop_token_ids@) {
        Some("stop token id"@)
    } else if p.n > i32::MAX {
        Some("n"@)
    } else if p.sampling_seed is Some && p.sampling_seed->0 > i64::MAX {
        Some("sampling_seed"@)
    } else {
        None
    }
}

/// Why sampling parameters are refused, if they are.
pub open spec fn sampling_refused(p: worker::SamplingParams) -> Option<(Code, Seq<char>)> {
    if p.logit_bias@.len() > 0 || p.engine_parameters is Some {
        Some(
            (
                Code::InvalidArgument,
                "SGLang native gRPC does not support WorkerInference engine parameters or logit bias"@,
            ),
        )
    } else {
        match sampling_misfit(p) {
            Some(field) => Some((Code::InvalidArgument, range_message(field))),
            None => None,
        }
    }
}

/// The refusal is the one that is due.
pub open spec fn refused_with(due: Option<(Code, Seq<char>)>, e: Status) -> bool {
    match due {
        Some((code, message)) => e.is(code, message),
        None => false,
    }
}

/// The SGLang parameters say what the worker's say.
pub open spec fn sampling_matches(p: worker::SamplingParams, s: sglang::SamplingParams) -> bool {
    &&& s.temperature == p.temperature
    &&& s.top_p == p.top_p
    &&& s.top_k == p.top_k
    &&& s.min_p == p.min_p
    &&& s.frequency_penalty == p.frequency_penalty
    &&& s.presence_penalty == p.presence_penalty
    &&& s.repetition_penalty == p.repetition_penalty
    &&& s.max_new_tokens == match p.max_new_tokens {
        None => None,
        Some(n) => Some(n as i32),
    }
    &&& s.min_new_tokens == Some(p.min_new_tokens as i32)
    &&& s.stop == p.stop
    &&& s.stop_token_ids@ == signed(p.stop_token_ids@)
    &&& s.ignore_eos == Some(p.ignore_eos)
    &&& s.n == if p.n == 0 {
        None
    } else {
        Some(p.n as i32)
    }
    &&& s.seed == match p.sampling_seed {
        None => None,
        Some(n) => Some(n as i64),
    }
    &&& s.guided_decoding == match p.constraint {
        None => None,
        Some(worker::Constraint::Regex(x)) => Some(
            sglang::GuidedDecoding { constraint: Some(sglang::Constraint::Regex(x)) },
        ),
        Some(worker::Constraint::JsonSchema(x)) => Some(
            sglang::GuidedDecoding { constraint: Some(sglang::Constraint::JsonSchema(x)) },
        ),
        Some(worker::Constraint::EbnfGrammar(x)) => Some(
            sglang::GuidedDecoding { constraint: Some(sglang::Constraint::Ebnf(x)) },
        ),
        Some(worker::Constraint::StructuralTag(x)) => Some(
            sglang::GuidedDecoding { constraint: Some(sglang::Constraint::StructuralTag(x)) },
        ),
    }
}

fn into_sglang_sampling(params: worker::SamplingParams) -> (r: Result<
    sglang::SamplingParams,
    Status,
>)
    ensures
        match r {
            Ok(s) => sampling_refused(params) is None && sampling_matches(params, s),
            Err(e) => refused_with(sampling_refused(params), e),
        },
{
    if params.logit_bias.len() > 0 || params.engine_parameters.is_some() {
        return Err(
            Status::new(
                Code::InvalidArgument,
                "SGLang native gRPC does not support WorkerInference engine parameters or logit bias",
            ),
        );
    }
    let max_new_tokens: Option<i32> = match params.max_new_tokens {
        None => None,
        Some(n) => {
            if n > i32::MAX as u32 {
                return Err(numeric_range_error("max_new_tokens"));
            }
            Some(n as i32)
        },
    };
    if params.min_new_tokens > i32::MAX as u32 {
        return Err(numeric_range_error("min_new_tokens"));
    }
    let stop_token_ids: Vec<i32> = match to_signed(&params.stop_token_ids, "stop token id") {
        Ok(v) => v,
        Err(e) => {
            return Err(e);
        },
    };
    if params.n > i32::MAX as u32 {
        return Err(numeric_range_error("n"));
    }
    let seed: Option<i64> = match params.sampling_seed {
        None => None,
        Some(n) => {
            if n > i64::MAX as u64 {
                return Err(numeric_range_error("sampling_seed"));
            }
            Some(n as i64)
        },
    };
    Ok(
        sglang::SamplingParams {
            temperature: params.temperature,
            top_p: params.top_p,
            top_k: params.top_k,
            min_p: params.min_p,
            frequency_penalty: params.frequency_penalty,
            presence_penalty: params.presence_penalty,
            repetition_penalty: params.repetition_penalty,
            max_new_tokens,
            min_new_tokens: Some(params.min_new_tokens as i32),
            stop: params.stop,
            stop_token_ids,
            ignore_eos: Some(params.ignore_eos),
            n: if params.n == 0 {
                None
            } else {
                Some(params.n as i32)
            },
            seed,
            guided_decoding: match params.constraint {
                None => None,
                Some(constraint) => Some(
                    sglang::GuidedDecoding {
                        constraint: Some(
                            match constraint {
                                worker::Constraint::Regex(s) => sglang::Constraint::Regex(s),
                                worker::Constraint::JsonSchema(s) => sglang::Constraint::JsonSchema(
                                    s,
                                ),
                                worker::Constraint::EbnfGrammar(s) => sglang::Constraint::Ebnf(s),
                                worker::Constraint::StructuralTag(
                                    s,
                                ) => sglang::Constraint::StructuralTag(s),
                            },
                        ),
                    },
                ),
            },
        },
    )
}

/// Why a request is refused on its way to SGLang, if it is.
pub open spec fn request_refused(r: worker::GenerateRequest) -> Option<(Code, Seq<char>)> {
    if r.return_logprob || r.top_logprobs_num != 0 || r.token_ids_logprob@.len() > 0 {
        Some(
            (
                Code::Unimplemented,
                "SGLang native gRPC does not expose token logprobs on GenerateResponse"@,
            ),
        )
    } else if r.tokenized is Some && !all_fit(r.tokenized->0.input_ids@) {
        Some((Code::InvalidArgument, range_message("input token id"@)))
    } else if r.sampling_params is Some {
        sampling_refused(r.sampling_params->0)
    } else {
        None
    }
}

/// The SGLang request asks for what the worker's does.
pub open spec fn request_matches(r: worker::GenerateRequest, s: sglang::GenerateRequest) -> bool {
    &&& s.input_ids@ == match r.tokenized {
        None => Seq::empty(),
        Some(t) => signed(t.input_ids@),
    }
    &&& match (r.sampling_params, s.sampling_params) {
        (None, None) => true,
        (Some(p), Some(q)) => sampling_matches(p, q),
        _ => false,
    }
    &&& s.stream == Some(r.stream)
    &&& s.return_logprob == Some(false)
    &&& s.top_logprobs_num is None
    &&& s.logprob_start_len == r.logprob_start_len
    &&& s.rid == Some(r.request_id)
    &&& s.routed_dp_rank == r.data_parallel_rank
    &&& s.priority is None
    &&& s.require_reasoning is None
    &&& s.max_thinking_tokens is None
}

/// Turns a request of the worker contract into an SGLang one. What SGLang has no
/// place for is refused.
pub fn into_sglang_request(request: worker::GenerateRequest) -> (r: Result<
    sglang::GenerateRequest,
    Status,
>)
    ensures
        match r {
            Ok(s) => request_refused(request) is None && request_matches(request, s),
            Err(e) => refused_with(request_refused(request), e),
        },
{
    if request.return_logprob || request.top_logprobs_num != 0 || request.token_ids_logprob.len()
        > 0 {
        return Err(
            Status::new(
                Code::Unimplemented,
                "SGLang native gRPC does not expose token logprobs on GenerateResponse",
            ),
        );
    }
    let input_ids: Vec<i32> = match &request.tokenized {
        None => Vec::new(),
        Some(input) => match to_signed(&input.input_ids, "input token id") {
            Ok(v) => v,
            Err(e) => {
                return Err(e);
            },
        },
    };
    let sampling_params: Option<sglang::SamplingParams> = match request.sampling_params {
        None => None,
        Some(p) => match into_sglang_sampling(p) {
            Ok(s) => Some(s),
            Err(e) => {
                return Err(e);
            },
        },
    };
    Ok(
        sglang::GenerateRequest {
            input_ids,
            sampling_params,
            stream: Some(request.stream),
            return_logprob: Some(false),
            top_logprobs_num: None,
            logprob_start_len: request.logprob_start_len,
            rid: Some(request.request_id),
            routed_dp_rank: request.data_parallel_rank,
            priority: None,
            require_reasoning: None,
            max_thinking_tokens: None,
        },
    )
}

/// The text under a name.
pub open spec fn meta_at(meta: Seq<(String, String)>, key: Seq<char>) -> Option<Seq<char>>
    decreases meta.len(),
{
    if meta.len() == 0 {
        None
    } else if meta[0].0@ == key {
        Some(meta[0].1@)
    } else {
        meta_at(meta.skip(1), key)
    }
}

fn meta_get<'a>(meta: &'a Vec<(String, String)>, key: &str) -> (r: Option<&'a str>)
    ensures
        meta_at(meta@, key@) == (match r {
            Some(s) => Some(s@),
            None => None::<Seq<char>>,
        }),
{
    let mut i: usize = 0;
    assert(meta@.skip(0) =~= meta@);
    while i < meta.len()
        invariant
            i <= meta@.len(),
            meta_at(meta@, key@) == meta_at(meta@.skip(i as int), key@),
        decreases meta@.len() - i,
    {
        let ghost rest = meta@.skip(i as int);
        assert(rest[0] == meta@[i as int]);
        assert(rest.skip(1) =~= meta@.skip(i + 1));
        if same_text(meta[i].0.as_str(), key) {
            return Some(meta[i].1.as_str());
        }
        i = i + 1;
    }
    None
}

/// The number under a name: 0 where there is none.
pub open spec fn meta_number(meta: Seq<(String, String)>, key: Seq<char>) -> u32 {
    match meta_at(meta, key) {
        None => 0,
        Some(s) => match json::json_u32(s) {
            None => 0,
            Some(n) => n,
        },
    }
}

fn meta_u32(meta: &Vec<(String, String)>, key: &str) -> (r: u32)
    ensures
        r == meta_number(meta@, key@),
{
    match meta_get(meta, key) {
        None => 0,
        Some(s) => match json::parse_u32(s) {
            None => 0,
            Some(n) => n,
        },
    }
}

/// What a response says of itself.
#[derive(Debug, Clone, Copy, PartialEq, Eq, Structural)]
pub struct Counts {
    pub prompt_tokens: u32,
    pub completion_tokens: u32,
    pub cached_tokens: u32,
    pub index: u32,
}

/// The counts that metadata name.
pub open spec fn counts_of(meta: Seq<(String, String)>) -> Counts {
    Counts {
        prompt_tokens: meta_number(meta, "prompt_tokens"@),
        completion_tokens: meta_number(meta, "completion_tokens"@),
        cached_tokens: meta_number(meta, "cached_tokens"@),
        index: meta_number(meta, "index"@),
    }
}

/// How a generation ended.
pub enum StopView {
    Token(u32),
    Text(Seq<char>),
}

/// The matched stop as plain values.
pub open spec fn stop_view(m: Option<worker::MatchedStop>) -> Option<StopView> {
    match m {
        None => None,
        Some(worker::MatchedStop::MatchedTokenId(id)) => Some(StopView::Token(id)),
        Some(worker::MatchedStop::MatchedStopStr(s)) => Some(StopView::Text(s@)),
    }
}

/// Reason and matched stop that a JSON document tells: a text is the reason; of
/// an object `type` is the reason and `matched` the stop; else the reason is
/// `stop`.
pub open spec fn finish_of(tree: Option<JsonView>) -> (Seq<char>, Option<StopView>) {
    match tree {
        Some(JsonView::Text(s)) => (s, None),
        Some(JsonView::Object(fields)) => (
            match json::text_field(tree->0, "type"@) {
                Some(s) => s,
                None => "stop"@,
            },
            match json::field(tree->0, "matched"@) {
                None => None,
                Some(v) => match json::natural_in(v) {
                    Some(n) => if n <= u32::MAX {
                        Some(StopView::Token(n as u32))
                    } else {
                        None
                    },
                    None => match json::text_in(v) {
                        Some(s) => Some(StopView::Text(s)),
                        None => None,
                    },
                },
            },
        ),
        _ => ("stop"@, None),
    }
}

/// Reason and matched stop that a JSON document tells.
pub fn read_finish(value: &Option<Value>) -> (r: (String, Option<worker::MatchedStop>))
    ensures
        (r.0@, stop_view(r.1)) == finish_of(
            match *value {
                Some(v) => Some(json_tree(v)),
                None => None,
            },
        ),
{
    let v = match value {
        None => {
            return ("stop".to_owned(), None);
        },
        Some(v) => v,
    };
    match json::as_str(v) {
        Some(s) => {
            return (s.to_owned(), None);
        },
        None => {},
    }
    if !json::is_object(v) {
        return ("stop".to_owned(), None);
    }
    let reason: String = match json::get_str(v, "type") {
        Some(s) => s.to_owned(),
        None => "stop".to_owned(),
    };
    let matched: Option<worker::MatchedStop> = match json::get(v, "matched") {
        None => None,
        Some(m) => match json::as_u64(m) {
            Some(n) => if n <= u32::MAX as u64 {
                Some(worker::MatchedStop::MatchedTokenId(n as u32))
            } else {
                None
            },
            None => match json::as_str(m) {
                Some(s) => Some(worker::MatchedStop::MatchedStopStr(s.to_owned())),
                None => None,
            },
        },
    };
    (reason, matched)
}

/// The JSON document under `finish_reason`.
pub open spec fn finish_document(meta: Seq<(String, String)>) -> Option<JsonView> {
    match meta_at(meta, "finish_reason"@) {
        None => None,
        Some(s) => json::json_document_in(s),
    }
}

fn finish_metadata(meta: &Vec<(String, String)>) -> (r: (String, Option<worker::MatchedStop>))
    ensures
        (r.0@, stop_view(r.1)) == finish_of(finish_document(meta@)),
{
    let value: Option<Value> = match meta_get(meta, "finish_reason") {
        None => None,
        Some(s) => json::parse_text(s),
    };
    read_finish(&value)
}

/// Numbers without a sign.
pub open spec fn unsigned_ids(ids: Seq<i32>) -> Seq<u32> {
    ids.map_values(|x: i32| x as u32)
}

/// No number is negative.
pub open spec fn none_negative(ids: Seq<i32>) -> bool {
    forall|i: int| 0 <= i < ids.len() ==> (#[trigger] ids[i]) >= 0
}

fn to_unsigned_ids(ids: &Vec<i32>) -> (r: Option<Vec<u32>>)
    ensures
        match r {
            Some(v) => none_negative(ids@) && v@ == unsigned_ids(ids@),
            None => !none_negative(ids@),
        },
{
    let mut out: Vec<u32> = Vec::new();
    let mut i: usize = 0;
    while i < ids.len()
        invariant
            i <= ids@.len(),
            none_negative(ids@.take(i as int)),
            out@ == unsigned_ids(ids@.take(i as int)),
        decreases ids@.len() - i,
    {
        if ids[i] < 0 {
            assert(ids@[i as int] < 0);
            return None;
        }
        out.push(ids[i] as u32);
        proof {
            let now = ids@.take(i + 1);
            assert forall|j: int| 0 <= j < now.len() implies (#[trigger] now[j]) >= 0 by {
                if j < i {
                    assert(ids@.take(i as int)[j] == now[j]);
                }
            }
            assert(out@ =~= unsigned_ids(now));
        }
        i = i + 1;
    }
    assert(ids@.take(i as int) =~= ids@);
    Some(out)
}

/// How many tokens of a stream were passed on.
pub open spec fn passed_on(emitted: Map<u32, usize>, index: u32) -> int {
    if emitted.contains_key(index) {
        emitted[index] as int
    } else {
        0
    }
}

/// Why a response of SGLang is refused, if it is.
pub open spec fn response_refused(
    s: sglang::GenerateResponse,
    counts: Counts,
    emitted: Map<u32, usize>,
) -> Option<Seq<char>> {
    if !none_negative(s.output_ids@) {
        Some("SGLang returned a negative token id"@)
    } else if !s.finished && s.output_ids@.len() < passed_on(emitted, counts.index) {
        Some("SGLang returned a shorter cumulative token sequence"@)
    } else {
        None
    }
}

/// The worker's response tells what SGLang's does; a chunk holds the tokens that
/// were not passed on yet.
pub open spec fn response_matches(
    request_id: Seq<char>,
    s: sglang::GenerateResponse,
    counts: Counts,
    finish: (Seq<char>, Option<StopView>),
    emitted: Map<u32, usize>,
    w: worker::GenerateResponse,
) -> bool {
    &&& w.request_id@ == request_id
    &&& match w.response {
        Some(worker::GenerateEvent::Complete(c)) => {
            &&& s.finished
            &&& c.output_ids@ == unsigned_ids(s.output_ids@)
            &&& c.finish_reason@ == finish.0
            &&& stop_view(c.matched_stop) == finish.1
            &&& c.prompt_tokens == counts.prompt_tokens
            &&& c.completion_tokens == counts.completion_tokens
            &&& c.cached_tokens == counts.cached_tokens
            &&& c.index == counts.index
            &&& c.output_logprobs is None
        },
        Some(worker::GenerateEvent::Chunk(c)) => {
            &&& !s.finished
            &&& c.token_ids@ == unsigned_ids(s.output_ids@).skip(passed_on(emitted, counts.index))
            &&& c.prompt_tokens == counts.prompt_tokens
            &&& c.completion_tokens == counts.completion_tokens
            &&& c.cached_tokens == counts.cached_tokens
            &&& c.index == counts.index
            &&& c.output_logprobs is None
        },
        None => false,
    }
}

/// What was passed on after a response.
pub open spec fn emitted_after(
    s: sglang::GenerateResponse,
    counts: Counts,
    emitted: Map<u32, usize>,
) -> Map<u32, usize> {
    if !none_negative(s.output_ids@) || s.finished {
        emitted
    } else if s.output_ids@.len() < passed_on(emitted, counts.index) {
        emitted.insert(counts.index, passed_on(emitted, counts.index) as usize)
    } else {
        emitted.insert(counts.index, s.output_ids@.len() as usize)
    }
}

/// Turns a response of SGLang, whose token list grows, into one of the worker
/// contract, whose chunks hold new tokens only. Counts and finish are what the
/// response's metadata tell.
pub fn convert_sglang_response(
    request_id: &str,
    response: sglang::GenerateResponse,
    counts: Counts,
    finish: (String, Option<worker::MatchedStop>),
    emitted_by_index: &mut HashMap<u32, usize>,
) -> (r: Result<worker::GenerateResponse, Status>)
    ensures
        final(emitted_by_index)@ == emitted_after(response, counts, old(emitted_by_index)@),
        match r {
            Ok(w) => {
                &&& response_refused(response, counts, old(emitted_by_index)@) is None
                &&& response_matches(
                    request_id@,
                    response,
                    counts,
                    (finish.0@, stop_view(finish.1)),
                    old(emitted_by_index)@,
                    w,
                )
            },
            Err(e) => {
                &&& response_refused(response, counts, old(emitted_by_index)@) is Some
                &&& e.is(
                    Code::Internal,
                    response_refused(response, counts, old(emitted_by_index)@)->0,
                )
            },
        },
{
    broadcast use vstd::std_specs::hash::group_hash_axioms;

    let ghost pre = emitted_by_index@;
    let output_ids: Vec<u32> = match to_unsigned_ids(&response.output_ids) {
        Some(v) => v,
        None => {
            return Err(Status::new(Code::Internal, "SGLang returned a negative token id"));
        },
    };
    let Counts { prompt_tokens, completion_tokens, cached_tokens, index } = counts;
    let event: worker::GenerateEvent = if response.finished {
        worker::GenerateEvent::Complete(
            worker::GenerateComplete {
                output_ids,
                finish_reason: finish.0,
                prompt_tokens,
                completion_tokens,
                cached_tokens,
                output_logprobs: None,
                matched_stop: finish.1,
                index,
            },
        )
    } else {
        let emitted: usize = match emitted_by_index.get(&index) {
            Some(n) => *n,
            None => 0,
        };
        if output_ids.len() < emitted {
            emitted_by_index.insert(index, emitted);
            return Err(
                Status::new(
                    Code::Internal,
                    "SGLang returned a shorter cumulative token sequence",
                ),
            );
        }
        emitted_by_index.insert(index, output_ids.len());
        let mut token_ids: Vec<u32> = Vec::new();
        let mut i: usize = emitted;
        proof {
            assert(token_ids@ =~= output_ids@.subrange(emitted as int, emitted as int));
        }
        while i < output_ids.len()
            invariant
                emitted <= i <= output_ids@.len(),
                token_ids@ == output_ids@.subrange(emitted as int, i as int),
            decreases output_ids@.len() - i,
        {
            token_ids.push(output_ids[i]);
            i = i + 1;
            assert(token_ids@ =~= output_ids@.subrange(emitted as int, i as int));
        }
        proof {
            assert(token_ids@ =~= output_ids@.skip(emitted as int));
        }
        worker::GenerateEvent::Chunk(
            worker::GenerateStreamChunk {
                token_ids,
                prompt_tokens,
                completion_tokens,
                cached_tokens,
                output_logprobs: None,
                index,
            },
        )
    };
    Ok(worker::GenerateResponse { request_id: request_id.to_owned(), response: Some(event) })
}

/// Turns a response of SGLang into one of the worker contract.
pub fn from_sglang_response(
    request_id: &str,
    response: sglang::GenerateResponse,
    emitted_by_index: &mut HashMap<u32, usize>,
) -> (r: Result<worker::GenerateResponse, Status>)
    ensures
        final(emitted_by_index)@ == emitted_after(
            response,
            counts_of(response.meta_info@),
            old(emitted_by_index)@,
        ),
        match r {
            Ok(w) => {
                &&& response_refused(
                    response,
                    counts_of(response.meta_info@),
                    old(emitted_by_index)@,
                ) is None
                &&& response_matches(
                    request_id@,
                    response,
                    counts_of(response.meta_info@),
                    finish_of(finish_document(response.meta_info@)),
                    old(emitted_by_index)@,
                    w,
                )
            },
            Err(e) => {
                &&& response_refused(
                    response,
                    counts_of(response.meta_info@),
                    old(emitted_by_index)@,
                ) is Some
                &&& e.is(
                    Code::Internal,
                    response_refused(
                        response,
                        counts_of(response.meta_info@),
                        old(emitted_by_index)@,
                    )->0,
                )
            },
        },
{
    let counts = Counts {
        prompt_tokens: meta_u32(&response.meta_info, "prompt_tokens"),
        completion_tokens: meta_u32(&response.meta_info, "completion_tokens"),
        cached_tokens: meta_u32(&response.meta_info, "cached_tokens"),
        index: meta_u32(&response.meta_info, "index"),
    };
    let finish = finish_metadata(&response.meta_info);
    convert_sglang_response(request_id, response, counts, finish, emitted_by_index)
}

/// SGLang's stream on its way to the router: one request's responses, with what
/// was passed on so far.
pub struct SglangStream {
    pub request_id: String,
    pub emitted_by_index: HashMap<u32, usize>,
}

impl SglangStream {
    /// A stream before its first response.
    pub fn new(request_id: &str) -> (r: SglangStream)
        ensures
            r.request_id@ == request_id@,
            r.emitted_by_index@ == Map::<u32, usize>::empty(),
    {
        SglangStream { request_id: request_id.to_owned(), emitted_by_index: HashMap::new() }
    }

    /// Passes one item on: a response in the router's form, an error as it is.
    pub fn pass(&mut self, item: Result<sglang::GenerateResponse, Status>) -> (r: Result<
        worker::GenerateResponse,
        Status,
    >)
        ensures
            final(self).request_id == old(self).request_id,
            match item {
                Err(status) => {
                    &&& r matches Err(e) && e == status
                    &&& final(self).emitted_by_index@ == old(self).emitted_by_index@
                },
                Ok(s) => {
                    let counts = counts_of(s.meta_info@);
                    let emitted = old(self).emitted_by_index@;
                    &&& final(self).emitted_by_index@ == emitted_after(s, counts, emitted)
                    &&& match r {
                        Ok(w) => response_refused(s, counts, emitted) is None && response_matches(
                            old(self).request_id@,
                            s,
                            counts,
                            finish_of(finish_document(s.meta_info@)),
                            emitted,
                            w,
                        ),
                        Err(e) => response_refused(s, counts, emitted) is Some && e.is(
                            Code::Internal,
                            response_refused(s, counts, emitted)->0,
                        ),
                    }
                },
            },
    {
        match item {
            Err(status) => Err(status),
            Ok(response) => from_sglang_response(
                self.request_id.as_str(),
                response,
                &mut self.emitted_by_index,
            ),
        }
    }
}

/// The chunks of a growing stream, put together, are the stream: what was passed
/// on, followed by the next chunk, is the next token list.
pub proof fn chunks_put_together_are_the_stream(
    before: Seq<u32>,
    s: sglang::GenerateResponse,
    counts: Counts,
    emitted: Map<u32, usize>,
    request_id: Seq<char>,
    finish: (Seq<char>, Option<StopView>),
    w: worker::GenerateResponse,
)
    requires
        before.len() == passed_on(emitted, counts.index),
        before.len() <= s.output_ids@.len() <= usize::MAX,
        unsigned_ids(s.output_ids@).take(before.len() as int) == before,
        none_negative(s.output_ids@),
        !s.finished,
        response_matches(request_id, s, counts, finish, emitted, w),
    ensures
        w.response matches Some(worker::GenerateEvent::Chunk(c)) && before + c.token_ids@
            == unsigned_ids(s.output_ids@),
        passed_on(emitted_after(s, counts, emitted), counts.index) == s.output_ids@.len(),
{
    let all = unsigned_ids(s.output_ids@);
    match w.response {
        Some(worker::GenerateEvent::Chunk(c)) => {
            assert(before + c.token_ids@ =~= all) by {
                assert forall|i: int| 0 <= i < before.len() implies before[i] == all[i] by {
                    assert(all.take(before.len() as int)[i] == all[i]);
                }
            }
        },
        _ => {},
    }
}

/// What a worker answers to the refusal of an abort.
pub open spec fn abort_message(success: bool) -> Seq<char> {
    if success {
        ""@
    } else {
        "SGLang rejected the abort request"@
    }
}

/// The message that goes with the outcome of an abort.
pub fn abort_text(success: bool) -> (r: String)
    ensures
        r@ == abort_message(success),
{
    if success {
        "".to_owned()
    } else {
        "SGLang rejected the abort request".to_owned()
    }
}

/// What a client makes of the answer to an abort: a refusal is a failed
/// precondition.
pub fn abort_outcome(success: bool, message: String) -> (r: Result<(), Status>)
    ensures
        match r {
            Ok(_) => success,
            Err(e) => !success && e.is(Code::FailedPrecondition, message@),
        },
{
    if success {
        Ok(())
    } else {
        Err(Status { code: Code::FailedPrecondition, message })
    }
}

} // verus!
