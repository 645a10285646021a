//! The SGLang messages for text generation.

use super::Bits32;
use vstd::prelude::*;

verus! {

#[derive(Debug, Clone, PartialEq, Eq)]
pub enum Constraint {
    Regex(String),
    JsonSchema(String),
    Ebnf(String),
    StructuralTag(String),
}

#[derive(Debug, Clone, Default, PartialEq, Eq)]
pub struct GuidedDecoding {
    pub constraint: Option<Constraint>,
}

#[derive(Debug, Clone, Default, PartialEq, Eq)]
pub struct SamplingParams {
    pub temperature: Option<Bits32>,
    pub top_p: Option<Bits32>,
    pub top_k: Option<i32>,
    pub min_p: Option<Bits32>,
    pub frequency_penalty: Option<Bits32>,
    pub presence_penalty: Option<Bits32>,
    pub repetition_penalty: Option<Bits32>,
    pub max_new_tokens: Option<i32>,
    pub min_new_tokens: Option<i32>,
    pub stop: Vec<String>,
    pub stop_token_ids: Vec<i32>,
    pub ignore_eos: Option<bool>,
    pub n: Option<i32>,
    pub seed: Option<i64>,
    pub guided_decoding: Option<GuidedDecoding>,
}

#[derive(Debug, Clone, Default, PartialEq, Eq)]
pub struct GenerateRequest {
    pub input_ids: Vec<i32>,
    pub sampling_params: Option<SamplingParams>,
    pub stream: Option<bool>,
    pub return_logprob: Option<bool>,
    pub top_logprobs_num: Option<i32>,
    pub logprob_start_len: Option<i32>,
    pub rid: Option<String>,
    pub routed_dp_rank: Option<i32>,
    pub priority: Option<i32>,
    pub require_reasoning: Option<bool>,
    pub max_thinking_tokens: Option<i32>,
}

#[derive(Debug, Clone, Default, PartialEq, Eq)]
pub struct GenerateResponse {
    pub output_ids: Vec<i32>,
    /// Names with JSON texts, no name twice.
    pub meta_info: Vec<(String, String)>,
    pub finished: bool,
}

} // verus!
