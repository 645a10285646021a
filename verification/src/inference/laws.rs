//! What is kept on the way between the engines' messages and the worker contract.

use super::abort_message;
use super::counts_of;
use super::emitted_after;
use super::finish_document;
use super::finish_of;
use super::meta_at;
use super::passed_on;
use super::refused_with;
use super::request_matches;
use super::request_refused;
use super::response_matches;
use super::response_refused;
use super::same_response;
use super::sglang;
use super::stop_view;
use super::taken_over;
use super::tokenspeed;
use super::worker;
use super::worker_request;
use super::Counts;
use super::StopView;
use crate::json;
use crate::json::JsonView;
use crate::json::NumberView;
use crate::status::Code;
use crate::status::Status;
use crate::text;
use vstd::prelude::*;

verus! {

/// The two lists have the same numbers in the same order.
pub open spec fn same_numbers(a: Seq<u32>, b: Seq<i32>) -> bool {
    a.len() == b.len() && forall|i: int| 0 <= i < a.len() ==> #[trigger] a[i] == b[i]
}

/// The two constraints are of the same kind, and say the same.
pub open spec fn same_constraint(
    a: Option<worker::Constraint>,
    b: Option<sglang::GuidedDecoding>,
) -> bool {
    match (a, b) {
        (None, None) => true,
        (Some(a), Some(b)) => match (a, b.constraint) {
            (worker::Constraint::Regex(x), Some(sglang::Constraint::Regex(y))) => x@ == y@,
            (worker::Constraint::JsonSchema(x), Some(sglang::Constraint::JsonSchema(y))) => x@
                == y@,
            (worker::Constraint::EbnfGrammar(x), Some(sglang::Constraint::Ebnf(y))) => x@ == y@,
            (
                worker::Constraint::StructuralTag(x),
                Some(sglang::Constraint::StructuralTag(y)),
            ) => x@ == y@,
            _ => false,
        },
        _ => false,
    }
}

/// The SGLang parameters have every portable parameter of the worker's: stop texts and
/// stop tokens in order, limits, penalties and seed as they are.
pub open spec fn asks_the_same(p: worker::SamplingParams, s: sglang::SamplingParams) -> bool {
    &&& s.temperature == p.temperature
    &&& s.top_p == p.top_p
    &&& s.top_k == p.top_k
    &&& s.min_p == p.min_p
    &&& s.frequency_penalty == p.frequency_penalty
    &&& s.presence_penalty == p.presence_penalty
    &&& s.repetition_penalty == p.repetition_penalty
    &&& match p.max_new_tokens {
        None => s.max_new_tokens is None,
        Some(n) => s.max_new_tokens matches Some(m) && m == n,
    }
    &&& s.min_new_tokens matches Some(m) && m == p.min_new_tokens
    &&& s.stop@.len() == p.stop@.len()
    &&& forall|i: int| 0 <= i < p.stop@.len() ==> (#[trigger] p.stop@[i])@ == s.stop@[i]@
    &&& same_numbers(p.stop_token_ids@, s.stop_token_ids@)
    &&& s.ignore_eos == Some(p.ignore_eos)
    &&& if p.n == 0 {
        s.n is None
    } else {
        s.n matches Some(m) && m == p.n
    }
    &&& match p.sampling_seed {
        None => s.seed is None,
        Some(n) => s.seed matches Some(m) && m == n,
    }
    &&& same_constraint(p.constraint, s.guided_decoding)
}

/// Nothing that a worker request asks for is lost on its way to SGLang: of a request
/// that is accepted every token, every stop, every limit and every constraint is there,
/// in order, and what has no place in SGLang's request was not asked for.
pub proof fn nothing_asked_for_is_lost(r: worker::GenerateRequest, s: sglang::GenerateRequest)
    requires
        request_refused(r) is None,
        request_matches(r, s),
    ensures
        match r.tokenized {
            None => s.input_ids@.len() == 0,
            Some(t) => same_numbers(t.input_ids@, s.input_ids@),
        },
        match (r.sampling_params, s.sampling_params) {
            (None, None) => true,
            (Some(p), Some(q)) => asks_the_same(p, q) && p.logit_bias@.len() == 0
                && p.engine_parameters is None,
            _ => false,
        },
        s.rid matches Some(id) && id@ == r.request_id@,
        s.stream == Some(r.stream),
        s.routed_dp_rank == r.data_parallel_rank,
        s.logprob_start_len == r.logprob_start_len,
        !r.return_logprob,
        r.top_logprobs_num == 0,
        r.token_ids_logprob@.len() == 0,
        s.return_logprob == Some(false),
        s.top_logprobs_num is None,
        s.priority is None,
        s.require_reasoning is None,
        s.max_thinking_tokens is None,
{
    if r.sampling_params is Some && s.sampling_params is Some {
        let p = r.sampling_params->0;
        let q = s.sampling_params->0;
        assert forall|i: int| 0 <= i < p.stop_token_ids@.len() implies #[trigger] p.stop_token_ids@[i]
            == q.stop_token_ids@[i] by {}
    }
    if r.tokenized is Some {
        let t = r.tokenized->0;
        assert forall|i: int| 0 <= i < t.input_ids@.len() implies #[trigger] t.input_ids@[i]
            == s.input_ids@[i] by {}
    }
}

/// Two requests that SGLang is asked for alike asked alike: no two different stops,
/// limits, seeds or tokens become one.
pub proof fn different_requests_stay_different(
    a: worker::GenerateRequest,
    b: worker::GenerateRequest,
    s: sglang::GenerateRequest,
)
    requires
        request_refused(a) is None,
        request_refused(b) is None,
        request_matches(a, s),
        request_matches(b, s),
    ensures
        a.request_id@ == b.request_id@,
        a.stream == b.stream,
        a.data_parallel_rank == b.data_parallel_rank,
        a.tokenized is Some && b.tokenized is Some ==> a.tokenized->0.input_ids@
            == b.tokenized->0.input_ids@,
        a.sampling_params is Some <==> b.sampling_params is Some,
        a.sampling_params is Some && b.sampling_params is Some ==> {
            let p = a.sampling_params->0;
            let q = b.sampling_params->0;
            &&& p.temperature == q.temperature
            &&& p.top_p == q.top_p
            &&& p.max_new_tokens == q.max_new_tokens
            &&& p.min_new_tokens == q.min_new_tokens
            &&& p.stop_token_ids@ == q.stop_token_ids@
            &&& p.n == q.n
            &&& p.sampling_seed == q.sampling_seed
            &&& p.stop@.len() == q.stop@.len()
            &&& forall|i: int| 0 <= i < p.stop@.len() ==> (#[trigger] p.stop@[i])@ == q.stop@[i]@
        },
{
    nothing_asked_for_is_lost(a, s);
    nothing_asked_for_is_lost(b, s);
    if a.sampling_params is Some {
        let p = a.sampling_params->0;
        let q = b.sampling_params->0;
        assert(p.stop_token_ids@ =~= q.stop_token_ids@);
        assert forall|i: int| 0 <= i < p.stop@.len() implies (#[trigger] p.stop@[i])@
            == q.stop@[i]@ by {
            assert(q.stop@[i]@ == s.sampling_params->0.stop@[i]@);
        }
    }
    if a.tokenized is Some && b.tokenized is Some {
        assert(a.tokenized->0.input_ids@ =~= b.tokenized->0.input_ids@);
    }
}

/// Every number of the list is one that SGLang has a place for.
pub open spec fn fit(ids: Seq<u32>) -> bool {
    forall|i: int| 0 <= i < ids.len() ==> (#[trigger] ids[i]) <= 0x7fff_ffff
}

/// What SGLang takes: no log probabilities, no biases and no parameters of the engine's
/// own, and no number past its range.
pub open spec fn sglang_takes(r: worker::GenerateRequest) -> bool {
    &&& !r.return_logprob
    &&& r.top_logprobs_num == 0
    &&& r.token_ids_logprob@.len() == 0
    &&& r.tokenized matches Some(t) ==> fit(t.input_ids@)
    &&& r.sampling_params matches Some(p) ==> {
        &&& p.logit_bias@.len() == 0
        &&& p.engine_parameters is None
        &&& p.max_new_tokens matches Some(n) ==> n <= 0x7fff_ffff
        &&& p.min_new_tokens <= 0x7fff_ffff
        &&& fit(p.stop_token_ids@)
        &&& p.n <= 0x7fff_ffff
        &&& p.sampling_seed matches Some(n) ==> n <= 0x7fff_ffff_ffff_ffff
    }
}

/// A request is refused exactly if it asks for something that SGLang does not take; the
/// code tells log probabilities from arguments that are out of place.
pub proof fn refusals_are_due(r: worker::GenerateRequest)
    ensures
        request_refused(r) is None <==> sglang_takes(r),
        request_refused(r) matches Some(x) ==> x.0 == if r.return_logprob || r.top_logprobs_num != 0
            || r.token_ids_logprob@.len() > 0 {
            Code::Unimplemented
        } else {
            Code::InvalidArgument
        },
{
}

// ── TokenSpeed ──────────────────────────────────────────────────────────────

/// A TokenSpeed request and the worker's ask for the same, field by field.
pub proof fn tokenspeed_requests_are_kept(t: tokenspeed::GenerateRequest)
    ensures
        ({
            let w = worker_request(t);
            &&& w.request_id == t.request_id
            &&& match (t.tokenized, w.tokenized) {
                (None, None) => true,
                (Some(a), Some(b)) => a.input_ids == b.input_ids && a.original_text
                    == b.original_text,
                _ => false,
            }
            &&& w.return_logprob == t.return_logprob
            &&& w.logprob_start_len == t.logprob_start_len
            &&& w.top_logprobs_num == t.top_logprobs_num
            &&& w.token_ids_logprob == t.token_ids_logprob
            &&& w.stream == t.stream
            &&& w.data_parallel_rank == t.data_parallel_rank
            &&& match (t.sampling_params, w.sampling_params) {
                (None, None) => true,
                (Some(a), Some(b)) => {
                    &&& a.temperature == b.temperature
                    &&& a.top_p == b.top_p
                    &&& a.top_k == b.top_k
                    &&& a.min_p == b.min_p
                    &&& a.frequency_penalty == b.frequency_penalty
                    &&& a.presence_penalty == b.presence_penalty
                    &&& a.repetition_penalty == b.repetition_penalty
                    &&& a.max_new_tokens == b.max_new_tokens
                    &&& a.min_new_tokens == b.min_new_tokens
                    &&& a.stop == b.stop
                    &&& a.stop_token_ids == b.stop_token_ids
                    &&& a.ignore_eos == b.ignore_eos
                    &&& a.skip_special_tokens == b.skip_special_tokens
                    &&& a.spaces_between_special_tokens == b.spaces_between_special_tokens
                    &&& a.n == b.n
                    &&& a.logit_bias == b.logit_bias
                    &&& a.custom_params == b.engine_parameters
                    &&& a.no_stop_trim == b.no_stop_trim
                    &&& a.sampling_seed == b.sampling_seed
                    &&& match (a.constraint, b.constraint) {
                        (None, None) => true,
                        (
                            Some(tokenspeed::Constraint::Regex(x)),
                            Some(worker::Constraint::Regex(y)),
                        ) => x == y,
                        (
                            Some(tokenspeed::Constraint::JsonSchema(x)),
                            Some(worker::Constraint::JsonSchema(y)),
                        ) => x == y,
                        (
                            Some(tokenspeed::Constraint::EbnfGrammar(x)),
                            Some(worker::Constraint::EbnfGrammar(y)),
                        ) => x == y,
                        (
                            Some(tokenspeed::Constraint::StructuralTag(x)),
                            Some(worker::Constraint::StructuralTag(y)),
                        ) => x == y,
                        _ => false,
                    }
                },
                _ => false,
            }
        }),
{
}

/// The two lists of log probabilities have the same numbers for the same tokens.
pub open spec fn logprobs_agree(
    a: Option<tokenspeed::OutputLogProbs>,
    b: Option<worker::OutputLogProbs>,
) -> bool {
    match (a, b) {
        (None, None) => true,
        (Some(x), Some(y)) => {
            &&& x.token_logprobs@ == y.token_logprobs@
            &&& x.token_ids@ == y.token_ids@
            &&& x.top_logprobs@.len() == y.top_logprobs@.len()
            &&& forall|i: int|
                0 <= i < x.top_logprobs@.len() ==> (#[trigger] x.top_logprobs@[i]).values@
                    == y.top_logprobs@[i].values@ && x.top_logprobs@[i].token_ids@
                    == y.top_logprobs@[i].token_ids@
        },
        _ => false,
    }
}

/// A TokenSpeed response and the worker's tell the same: the same kind of event, with
/// the same tokens, counts, probabilities and stop.
pub proof fn tokenspeed_responses_are_kept(
    t: tokenspeed::GenerateResponse,
    w: worker::GenerateResponse,
)
    requires
        same_response(t, w),
    ensures
        t.request_id@ == w.request_id@,
        t.response is None <==> w.response is None,
        t.response matches Some(tokenspeed::GenerateEvent::Chunk(x)) ==> {
            &&& w.response matches Some(worker::GenerateEvent::Chunk(y))
            &&& x.token_ids@ == y.token_ids@
            &&& x.prompt_tokens == y.prompt_tokens
            &&& x.completion_tokens == y.completion_tokens
            &&& x.cached_tokens == y.cached_tokens
            &&& x.index == y.index
            &&& logprobs_agree(x.output_logprobs, y.output_logprobs)
        },
        t.response matches Some(tokenspeed::GenerateEvent::Complete(x)) ==> {
            &&& w.response matches Some(worker::GenerateEvent::Complete(y))
            &&& x.output_ids@ == y.output_ids@
            &&& x.finish_reason@ == y.finish_reason@
            &&& x.prompt_tokens == y.prompt_tokens
            &&& x.completion_tokens == y.completion_tokens
            &&& x.cached_tokens == y.cached_tokens
            &&& x.index == y.index
            &&& logprobs_agree(x.output_logprobs, y.output_logprobs)
            &&& match x.matched_stop {
                None => y.matched_stop is None,
                Some(tokenspeed::MatchedStop::MatchedTokenId(a)) => y.matched_stop matches Some(
                    worker::MatchedStop::MatchedTokenId(b),
                ) && a == b,
                Some(tokenspeed::MatchedStop::MatchedStopStr(a)) => y.matched_stop matches Some(
                    worker::MatchedStop::MatchedStopStr(b),
                ) && a@ == b@,
            }
        },
{
}

// ── Responses of SGLang ─────────────────────────────────────────────────────

/// A response of SGLang is refused exactly if a token is negative, or if an unfinished
/// list is shorter than what was passed on of its stream.
pub proof fn broken_streams_are_refused(
    s: sglang::GenerateResponse,
    counts: Counts,
    emitted: Map<u32, usize>,
)
    ensures
        ({
            let negative = exists|i: int|
                0 <= i < s.output_ids@.len() && (#[trigger] s.output_ids@[i]) < 0;
            let shorter = !s.finished && emitted.contains_key(counts.index)
                && s.output_ids@.len() < emitted[counts.index];
            &&& response_refused(s, counts, emitted) is Some <==> negative || shorter
            &&& negative ==> response_refused(s, counts, emitted) == Some(
                "SGLang returned a negative token id"@,
            )
            &&& !negative && shorter ==> response_refused(s, counts, emitted) == Some(
                "SGLang returned a shorter cumulative token sequence"@,
            )
        }),
{
}

/// A finished response passes all its tokens on, with its counts and how it ended; an
/// unfinished one passes on those that are new in its stream. The streams of other
/// indices are left alone, and a finished one leaves all of them alone.
pub proof fn responses_tell_what_is_new(
    request_id: Seq<char>,
    s: sglang::GenerateResponse,
    counts: Counts,
    finish: (Seq<char>, Option<StopView>),
    emitted: Map<u32, usize>,
    w: worker::GenerateResponse,
    other: u32,
)
    requires
        response_refused(s, counts, emitted) is None,
        response_matches(request_id, s, counts, finish, emitted, w),
        s.output_ids@.len() <= usize::MAX,
    ensures
        w.request_id@ == request_id,
        s.finished ==> {
            &&& w.response matches Some(worker::GenerateEvent::Complete(c))
            &&& same_numbers(c.output_ids@, s.output_ids@)
            &&& c.finish_reason@ == finish.0
            &&& stop_view(c.matched_stop) == finish.1
            &&& c.prompt_tokens == counts.prompt_tokens
            &&& c.completion_tokens == counts.completion_tokens
            &&& c.cached_tokens == counts.cached_tokens
            &&& c.index == counts.index
            &&& c.output_logprobs is None
            &&& emitted_after(s, counts, emitted) == emitted
        },
        !s.finished ==> {
            let old_ones = if emitted.contains_key(counts.index) {
                emitted[counts.index] as int
            } else {
                0
            };
            &&& w.response matches Some(worker::GenerateEvent::Chunk(c))
            &&& c.token_ids@.len() + old_ones == s.output_ids@.len()
            &&& forall|i: int|
                0 <= i < c.token_ids@.len() ==> #[trigger] c.token_ids@[i] == s.output_ids@[old_ones
                    + i]
            &&& c.prompt_tokens == counts.prompt_tokens
            &&& c.completion_tokens == counts.completion_tokens
            &&& c.cached_tokens == counts.cached_tokens
            &&& c.index == counts.index
            &&& c.output_logprobs is None
            &&& passed_on(emitted_after(s, counts, emitted), counts.index) == s.output_ids@.len()
            &&& other != counts.index ==> passed_on(emitted_after(s, counts, emitted), other)
                == passed_on(emitted, other)
        },
{
    assert forall|i: int| 0 <= i < s.output_ids@.len() implies #[trigger] s.output_ids@[i] >= 0 by {}
}

/// The name's first text, if it is there.
proof fn first_text(meta: Seq<(String, String)>, key: Seq<char>, i: int)
    requires
        0 <= i < meta.len(),
        meta[i].0@ == key,
        forall|j: int| 0 <= j < i ==> (#[trigger] meta[j]).0@ != key,
    ensures
        meta_at(meta, key) == Some(meta[i].1@),
    decreases meta.len(),
{
    if i > 0 {
        assert(meta[0].0@ != key);
        let rest = meta.skip(1);
        assert(rest[i - 1] == meta[i]);
        assert forall|j: int| 0 <= j < i - 1 implies (#[trigger] rest[j]).0@ != key by {
            assert(meta[j + 1].0@ != key);
        }
        first_text(rest, key, i - 1);
    }
}

proof fn no_text(meta: Seq<(String, String)>, key: Seq<char>)
    requires
        forall|j: int| 0 <= j < meta.len() ==> (#[trigger] meta[j]).0@ != key,
    ensures
        meta_at(meta, key) is None,
    decreases meta.len(),
{
    if meta.len() > 0 {
        assert(meta[0].0@ != key);
        let rest = meta.skip(1);
        assert forall|j: int| 0 <= j < rest.len() implies (#[trigger] rest[j]).0@ != key by {
            assert(meta[j + 1].0@ != key);
        }
        no_text(rest, key);
    }
}

/// The metadata say the number under the name.
pub open spec fn says_number(meta: Seq<(String, String)>, key: Seq<char>, n: u32) -> bool {
    exists|i: int|
        #![trigger meta[i]]
        0 <= i < meta.len() && meta[i].0@ == key && meta[i].1@ == text::decimal(n as nat)
            && forall|j: int| 0 <= j < i ==> (#[trigger] meta[j]).0@ != key
}

/// The metadata say nothing under the name.
pub open spec fn says_nothing(meta: Seq<(String, String)>, key: Seq<char>) -> bool {
    forall|j: int| 0 <= j < meta.len() ==> (#[trigger] meta[j]).0@ != key
}

proof fn one_count(meta: Seq<(String, String)>, key: Seq<char>, n: u32)
    ensures
        says_number(meta, key, n) ==> super::meta_number(meta, key) == n,
        says_nothing(meta, key) ==> super::meta_number(meta, key) == 0,
{
    if says_number(meta, key, n) {
        let i = choose|i: int|
            #![trigger meta[i]]
            0 <= i < meta.len() && meta[i].0@ == key && meta[i].1@ == text::decimal(n as nat)
                && forall|j: int| 0 <= j < i ==> (#[trigger] meta[j]).0@ != key;
        first_text(meta, key, i);
        plain_numbers_are_read(n);
    }
    if says_nothing(meta, key) {
        no_text(meta, key);
    }
}

/// A document that is a number in decimal is read as that number.
pub proof fn plain_numbers_are_read(n: u32)
    ensures
        json::json_u32(text::decimal(n as nat)) == Some(n),
{
    let d = text::decimal(n as nat);
    text::written_numbers_are_read(n as nat);
    assert(text::is_digit(d[0]));
    assert(text::is_digit(d[d.len() - 1]));
    assert(json::without_space(d) == d);
}

/// Counts are read from the metadata, each under its own name; what is not there counts
/// as zero.
pub proof fn counts_are_read_by_name(
    meta: Seq<(String, String)>,
    prompt: u32,
    completion: u32,
    cached: u32,
    index: u32,
)
    ensures
        says_number(meta, "prompt_tokens"@, prompt) ==> counts_of(meta).prompt_tokens == prompt,
        says_number(meta, "completion_tokens"@, completion) ==> counts_of(meta).completion_tokens
            == completion,
        says_number(meta, "cached_tokens"@, cached) ==> counts_of(meta).cached_tokens == cached,
        says_number(meta, "index"@, index) ==> counts_of(meta).index == index,
        says_nothing(meta, "prompt_tokens"@) ==> counts_of(meta).prompt_tokens == 0,
        says_nothing(meta, "completion_tokens"@) ==> counts_of(meta).completion_tokens == 0,
        says_nothing(meta, "cached_tokens"@) ==> counts_of(meta).cached_tokens == 0,
        says_nothing(meta, "index"@) ==> counts_of(meta).index == 0,
{
    one_count(meta, "prompt_tokens"@, prompt);
    one_count(meta, "completion_tokens"@, completion);
    one_count(meta, "cached_tokens"@, cached);
    one_count(meta, "index"@, index);
}

/// How a generation ended: a text is the reason; of an object, `type` is the reason, and
/// `matched` is the token or the text that ended it; anything else is a stop.
pub proof fn endings_are_read(
    reason: Seq<char>,
    fields: Map<Seq<char>, JsonView>,
    token: u32,
    stop: Seq<char>,
)
    ensures
        finish_of(None) == ("stop"@, None::<StopView>),
        finish_of(Some(JsonView::Null)) == ("stop"@, None::<StopView>),
        finish_of(Some(JsonView::Text(reason))) == (reason, None::<StopView>),
        fields.contains_key("type"@) && fields["type"@] == JsonView::Text(reason) ==> finish_of(
            Some(JsonView::Object(fields)),
        ).0 == reason,
        !fields.contains_key("type"@) ==> finish_of(Some(JsonView::Object(fields))).0 == "stop"@,
        !fields.contains_key("matched"@) ==> finish_of(Some(JsonView::Object(fields))).1 is None,
        fields.contains_key("matched"@) && fields["matched"@] == JsonView::Text(stop)
            ==> finish_of(Some(JsonView::Object(fields))).1 == Some(StopView::Text(stop)),
        fields.contains_key("matched"@) && fields["matched"@] == JsonView::Number(
            NumberView::Natural(token as u64),
        ) ==> finish_of(Some(JsonView::Object(fields))).1 == Some(StopView::Token(token)),
{
}

/// An abort that succeeded has nothing to say, and one that did not does.
pub proof fn aborts_say_why()
    ensures
        abort_message(true).len() == 0,
        abort_message(false) == "SGLang rejected the abort request"@,
        abort_message(false).len() > 0,
{
    reveal_strlit("");
    reveal_strlit("SGLang rejected the abort request");
}

/// How a generation ended stands under one name, as a document; the first of that name
/// counts.
pub proof fn endings_stand_under_their_name(meta: Seq<(String, String)>, i: int)
    requires
        0 <= i <= meta.len(),
        forall|j: int| 0 <= j < i ==> (#[trigger] meta[j]).0@ != "finish_reason"@,
        i < meta.len() ==> meta[i].0@ == "finish_reason"@,
    ensures
        i < meta.len() ==> finish_document(meta) == json::json_document_in(meta[i].1@),
        i == meta.len() ==> finish_document(meta) is None && finish_of(finish_document(meta)) == (
            "stop"@,
            None::<StopView>,
        ),
{
    if i < meta.len() {
        first_text(meta, "finish_reason"@, i);
    } else {
        no_text(meta, "finish_reason"@);
    }
}

/// A refusal has the code and the words that are due, and there is none where none is due.
pub proof fn refusals_say_what_is_due(due: Option<(Code, Seq<char>)>, e: Status)
    requires
        refused_with(due, e),
    ensures
        due is Some,
        e.code == (due->0).0,
        e.message@ == (due->0).1,
{
}

/// A request is taken over, under its name and with its tokens, unless it has something
/// that the worker has no place for: nothing is left out in silence.
pub proof fn nothing_is_left_out_in_silence(
    request: tokenspeed::GenerateRequest,
    r: Result<worker::GenerateRequest, Status>,
)
    requires
        taken_over(request, r),
    ensures
        r is Ok <==> request.mm_inputs is None && request.encode_bootstrap_info is None
            && request.kv_bootstrap_info is None,
        r matches Err(e) ==> e.code == Code::Unimplemented,
        r matches Ok(w) ==> {
            &&& w.request_id == request.request_id
            &&& w.stream == request.stream
            &&& w.tokenized is Some <==> request.tokenized is Some
            &&& request.tokenized matches Some(t) ==> w.tokenized->0.input_ids == t.input_ids
                && w.tokenized->0.original_text == t.original_text
            &&& w.sampling_params is Some <==> request.sampling_params is Some
        },
{
}

} // verus!
