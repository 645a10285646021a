//! The TokenSpeed messages for text generation.

use super::Bits32;
use vstd::prelude::*;

verus! {

#[derive(Debug, Clone, Default, PartialEq, Eq)]
pub struct TokenizedInput {
    pub input_ids: Vec<u32>,
    pub original_text: String,
}

#[derive(Debug, Clone, PartialEq, Eq)]
pub enum Constraint {
    Regex(String),
    JsonSchema(String),
    EbnfGrammar(String),
    StructuralTag(String),
}

#[derive(Debug, Clone, Default, PartialEq, Eq)]
pub struct SamplingParams {
    pub temperature: Option<Bits32>,
    pub top_p: Option<Bits32>,
    pub top_k: Option<i32>,
    pub min_p: Option<Bits32>,
    pub frequency_penalty: Option<Bits32>,
    pub presence_penalty: Option<Bits32>,
    pub repetition_penalty: Option<Bits32>,
    pub max_new_tokens: Option<u32>,
    pub min_new_tokens: u32,
    pub stop: Vec<String>,
    pub stop_token_ids: Vec<u32>,
    pub ignore_eos: bool,
    pub skip_special_tokens: bool,
    pub spaces_between_special_tokens: bool,
    pub n: u32,
    pub logit_bias: Vec<(String, Bits32)>,
    pub constraint: Option<Constraint>,
    /// Parameters of the engine's own, encoded.
    pub custom_params: Option<Vec<u8>>,
    pub no_stop_trim: bool,
    pub sampling_seed: Option<u64>,
}

#[derive(Debug, Clone, Default, PartialEq, Eq)]
pub struct GenerateRequest {
    pub request_id: String,
    pub tokenized: Option<TokenizedInput>,
    pub sampling_params: Option<SamplingParams>,
    pub return_logprob: bool,
    pub logprob_start_len: Option<i32>,
    pub top_logprobs_num: u32,
    pub token_ids_logprob: Vec<u32>,
    pub stream: bool,
    pub data_parallel_rank: Option<i32>,
    /// Multimodal inputs, encoded.
    pub mm_inputs: Option<Vec<u8>>,
    /// Bootstrap of a disaggregated encoder, encoded.
    pub encode_bootstrap_info: Option<Vec<u8>>,
    /// Bootstrap of a disaggregated cache, encoded.
    pub kv_bootstrap_info: Option<Vec<u8>>,
}

#[derive(Debug, Clone, Default, PartialEq, Eq)]
pub struct TopLogProbs {
    pub values: Vec<Bits32>,
    pub token_ids: Vec<u32>,
}

#[derive(Debug, Clone, Default, PartialEq, Eq)]
pub struct OutputLogProbs {
    pub token_logprobs: Vec<Bits32>,
    pub token_ids: Vec<u32>,
    pub top_logprobs: Vec<TopLogProbs>,
}

#[derive(Debug, Clone, PartialEq, Eq)]
pub enum MatchedStop {
    MatchedTokenId(u32),
    MatchedStopStr(String),
}

#[derive(Debug, Clone, Default, PartialEq, Eq)]
pub struct GenerateStreamChunk {
    pub token_ids: Vec<u32>,
    pub prompt_tokens: u32,
    pub completion_tokens: u32,
    pub cached_tokens: u32,
    pub output_logprobs: Option<OutputLogProbs>,
    pub index: u32,
}

#[derive(Debug, Clone, Default, PartialEq, Eq)]
pub struct GenerateComplete {
    pub output_ids: Vec<u32>,
    pub finish_reason: String,
    pub prompt_tokens: u32,
    pub completion_tokens: u32,
    pub cached_tokens: u32,
    pub output_logprobs: Option<OutputLogProbs>,
    pub matched_stop: Option<MatchedStop>,
    pub index: u32,
}

#[derive(Debug, Clone, PartialEq, Eq)]
pub enum GenerateEvent {
    Chunk(GenerateStreamChunk),
    Complete(GenerateComplete),
}

#[derive(Debug, Clone, Default, PartialEq, Eq)]
pub struct GenerateResponse {
    pub request_id: String,
    pub response: Option<GenerateEvent>,
}

} // verus!
