//! Configuration of a fleet of mock workers, from command-line arguments.

use super::sim::SimParams;
use crate::text;
use crate::text::natural_up_to;
use crate::text::same_text;
use vstd::prelude::*;

verus! {

/// The help text.
pub const USAGE: &'static str =
    "mock-worker — multi-port mock HTTP/gRPC inference workers for SMG scale testing\n\n\
     Flags:\n\
       --host <addr>            bind address (default 127.0.0.1)\n\
       --http-base-port <port>  first HTTP port (default 9000)\n\
       --http-count <n>         number of HTTP workers (default 0)\n\
       --grpc-base-port <port>  first gRPC port (required if --grpc-count > 0)\n\
       --grpc-count <n>         number of gRPC workers (default 0)\n\
       --zmq-handshake <addr>   frontend ipc:// handshake addr (required if --zmq-count > 0)\n\
       --zmq-count <n>          number of ZMQ mock EngineCore ranks (default 0)\n\
       --zmq-start-index <n>    engine index of the first ZMQ rank (default 0)\n\
       --model <id>             advertised model id (default mock-model)\n\
       --tokenizer <path>       tokenizer path for gRPC autoload (default = model)\n\
       --gen-ms <ms>            canned per-request latency (default 0)\n\
       --output-tokens <n>      output tokens per request when unspecified (default 8)\n\
     \n\
     Realistic engine simulator (continuous batching; opt-in):\n\
       --engine <canned|realistic|sim>  engine mode (default canned)\n\
       --prefill-tps <f>        prefill throughput, tokens/sec (default 8000)\n\
       --decode-base-ms <f>     fixed decode-step latency, ms (default 6.0)\n\
       --decode-per-req-ms <f>  added decode-step latency per running req (default 0.35)\n\
       --prefill-chunk <n>      max prompt tokens prefilled per step (default 2048)\n\
       --max-running <n>        max concurrent running requests (default 256)\n\
       --kv-tokens <n>          KV cache capacity in tokens (default 524288)\n\
       --block-size <n>         cache block/page size in tokens (default 16)\n\
       --prefix-cache <bool>    enable prefix caching + KV events (default true)\n\
     \n\
     Scale-simulation engine (SGLang-native /generate; HTTP only; opt-in):\n\
       --sim-itl-ms <f>              per-output-token latency, ms (default 43)\n\
       --sim-ttft-base-ms <f>        fixed pre-first-token overhead, ms (default 30)\n\
       --image-placeholder-id <id>   image placeholder token id (default 151655)\n\
       --image-tokens-per-image <n>  appended tokens per extra image; 0 = by size (default 0)\n\
       --image-bytes-per-token <n>   payload bytes per derived image token (default 2800)\n\
       (shares --prefill-tps --max-running --kv-tokens --block-size; sim\n\
        defaults: kv 1200000 tokens, block 128)";

/// Parameters of the realistic engine. Rates are decimal texts.
pub struct EngineParams {
    pub prefill_tps: String,
    pub decode_base_ms: String,
    pub decode_per_req_ms: String,
    pub prefill_chunk_tokens: usize,
    pub max_running: usize,
    pub kv_capacity_tokens: u64,
    pub block_size: u32,
    pub prefix_cache: bool,
    pub max_new_default: u32,
}

/// Timing of the simulated engine, as decimal texts.
pub struct SimTiming {
    pub itl_ms: String,
    pub ttft_base_ms: String,
    pub prefill_tps: String,
}

/// Configuration of every worker of a process.
pub struct Config {
    pub host: String,
    pub http_base_port: u16,
    pub http_count: u16,
    pub grpc_base_port: u16,
    pub grpc_count: u16,
    pub zmq_handshake: Option<String>,
    pub zmq_count: u16,
    pub zmq_start_index: u32,
    pub model_id: String,
    pub tokenizer_path: String,
    pub gen_delay_ms: u64,
    pub output_tokens: u32,
    pub realistic: bool,
    pub sim: bool,
    pub engine: EngineParams,
    pub sim_params: SimParams,
    pub sim_timing: SimTiming,
}

/// Parameters of the realistic engine as plain values.
pub struct EngineParamsView {
    pub prefill_tps: Seq<char>,
    pub decode_base_ms: Seq<char>,
    pub decode_per_req_ms: Seq<char>,
    pub prefill_chunk_tokens: usize,
    pub max_running: usize,
    pub kv_capacity_tokens: u64,
    pub block_size: u32,
    pub prefix_cache: bool,
    pub max_new_default: u32,
}

/// Timing of the simulated engine as plain values.
pub struct SimTimingView {
    pub itl_ms: Seq<char>,
    pub ttft_base_ms: Seq<char>,
    pub prefill_tps: Seq<char>,
}

/// A configuration as plain values.
pub struct ConfigView {
    pub host: Seq<char>,
    pub http_base_port: u16,
    pub http_count: u16,
    pub grpc_base_port: u16,
    pub grpc_count: u16,
    pub zmq_handshake: Option<Seq<char>>,
    pub zmq_count: u16,
    pub zmq_start_index: u32,
    pub model_id: Seq<char>,
    pub tokenizer_path: Seq<char>,
    pub gen_delay_ms: u64,
    pub output_tokens: u32,
    pub realistic: bool,
    pub sim: bool,
    pub engine: EngineParamsView,
    pub sim_params: SimParams,
    pub sim_timing: SimTimingView,
}

impl View for EngineParams {
    type V = EngineParamsView;

    open spec fn view(&self) -> EngineParamsView {
        EngineParamsView {
            prefill_tps: self.prefill_tps@,
            decode_base_ms: self.decode_base_ms@,
            decode_per_req_ms: self.decode_per_req_ms@,
            prefill_chunk_tokens: self.prefill_chunk_tokens,
            max_running: self.max_running,
            kv_capacity_tokens: self.kv_capacity_tokens,
            block_size: self.block_size,
            prefix_cache: self.prefix_cache,
            max_new_default: self.max_new_default,
        }
    }
}

impl View for SimTiming {
    type V = SimTimingView;

    open spec fn view(&self) -> SimTimingView {
        SimTimingView {
            itl_ms: self.itl_ms@,
            ttft_base_ms: self.ttft_base_ms@,
            prefill_tps: self.prefill_tps@,
        }
    }
}

impl View for Config {
    type V = ConfigView;

    open spec fn view(&self) -> ConfigView {
        ConfigView {
            host: self.host@,
            http_base_port: self.http_base_port,
            http_count: self.http_count,
            grpc_base_port: self.grpc_base_port,
            grpc_count: self.grpc_count,
            zmq_handshake: match self.zmq_handshake {
                None => None,
                Some(s) => Some(s@),
            },
            zmq_count: self.zmq_count,
            zmq_start_index: self.zmq_start_index,
            model_id: self.model_id@,
            tokenizer_path: self.tokenizer_path@,
            gen_delay_ms: self.gen_delay_ms,
            output_tokens: self.output_tokens,
            realistic: self.realistic,
            sim: self.sim,
            engine: self.engine@,
            sim_params: self.sim_params,
            sim_timing: self.sim_timing@,
        }
    }
}

/// The configuration without arguments.
pub open spec fn initial() -> ConfigView {
    ConfigView {
        host: "127.0.0.1"@,
        http_base_port: 9000,
        http_count: 0,
        grpc_base_port: 0,
        grpc_count: 0,
        zmq_handshake: None,
        zmq_count: 0,
        zmq_start_index: 0,
        model_id: "mock-model"@,
        tokenizer_path: ""@,
        gen_delay_ms: 0,
        output_tokens: 8,
        realistic: false,
        sim: false,
        engine: EngineParamsView {
            prefill_tps: "8000"@,
            decode_base_ms: "6"@,
            decode_per_req_ms: "0.35"@,
            prefill_chunk_tokens: 2048,
            max_running: 256,
            kv_capacity_tokens: 524_288,
            block_size: 16,
            prefix_cache: true,
            max_new_default: 8,
        },
        sim_params: SimParams {
            max_running: 256,
            kv_capacity_tokens: 1_200_000,
            block_size: 128,
            image_placeholder_id: 151_655,
            image_tokens_per_image: 0,
            image_bytes_per_token: 2800,
        },
        sim_timing: SimTimingView {
            itl_ms: "43"@,
            ttft_base_ms: "30"@,
            prefill_tps: "8000"@,
        },
    }
}

fn initial_config() -> (r: Config)
    ensures
        r@ == initial(),
{
    let r = Config {
        host: "127.0.0.1".to_owned(),
        http_base_port: 9000,
        http_count: 0,
        grpc_base_port: 0,
        grpc_count: 0,
        zmq_handshake: None,
        zmq_count: 0,
        zmq_start_index: 0,
        model_id: "mock-model".to_owned(),
        tokenizer_path: "".to_owned(),
        gen_delay_ms: 0,
        output_tokens: 8,
        realistic: false,
        sim: false,
        engine: EngineParams {
            prefill_tps: "8000".to_owned(),
            decode_base_ms: "6".to_owned(),
            decode_per_req_ms: "0.35".to_owned(),
            prefill_chunk_tokens: 2048,
            max_running: 256,
            kv_capacity_tokens: 524_288,
            block_size: 16,
            prefix_cache: true,
            max_new_default: 8,
        },
        sim_params: SimParams::default(),
        sim_timing: SimTiming {
            itl_ms: "43".to_owned(),
            ttft_base_ms: "30".to_owned(),
            prefill_tps: "8000".to_owned(),
        },
    };
    r
}

/// The flags.
#[derive(Debug, Clone, Copy, PartialEq, Eq, Structural)]
pub enum Flag {
    Host,
    HttpBasePort,
    HttpCount,
    GrpcBasePort,
    GrpcCount,
    ZmqHandshake,
    ZmqCount,
    ZmqStartIndex,
    Model,
    Tokenizer,
    GenMs,
    OutputTokens,
    EngineMode,
    SimItlMs,
    SimTtftBaseMs,
    ImagePlaceholderId,
    ImageTokensPerImage,
    ImageBytesPerToken,
    PrefillTps,
    DecodeBaseMs,
    DecodePerReqMs,
    PrefillChunk,
    MaxRunning,
    KvTokens,
    BlockSize,
    PrefixCache,
    Help,
    Unknown,
}

/// The flag that a text names.
pub open spec fn flag_of(s: Seq<char>) -> Flag {
    if s == "--host"@ {
        Flag::Host
    }
     else if s == "--http-base-port"@ {
        Flag::HttpBasePort
    }
     else if s == "--http-count"@ {
        Flag::HttpCount
    }
     else if s == "--grpc-base-port"@ {
        Flag::GrpcBasePort
    }
     else if s == "--grpc-count"@ {
        Flag::GrpcCount
    }
     else if s == "--zmq-handshake"@ {
        Flag::ZmqHandshake
    }
     else if s == "--zmq-count"@ {
        Flag::ZmqCount
    }
     else if s == "--zmq-start-index"@ {
        Flag::ZmqStartIndex
    }
     else if s == "--model"@ {
        Flag::Model
    }
     else if s == "--tokenizer"@ {
        Flag::Tokenizer
    }
     else if s == "--gen-ms"@ {
        Flag::GenMs
    }
     else if s == "--output-tokens"@ {
        Flag::OutputTokens
    }
     else if s == "--engine"@ {
        Flag::EngineMode
    }
     else if s == "--sim-itl-ms"@ {
        Flag::SimItlMs
    }
     else if s == "--sim-ttft-base-ms"@ {
        Flag::SimTtftBaseMs
    }
     else if s == "--image-placeholder-id"@ {
        Flag::ImagePlaceholderId
    }
     else if s == "--image-tokens-per-image"@ {
        Flag::ImageTokensPerImage
    }
     else if s == "--image-bytes-per-token"@ {
        Flag::ImageBytesPerToken
    }
     else if s == "--prefill-tps"@ {
        Flag::PrefillTps
    }
     else if s == "--decode-base-ms"@ {
        Flag::DecodeBaseMs
    }
     else if s == "--decode-per-req-ms"@ {
        Flag::DecodePerReqMs
    }
     else if s == "--prefill-chunk"@ {
        Flag::PrefillChunk
    }
     else if s == "--max-running"@ {
        Flag::MaxRunning
    }
     else if s == "--kv-tokens"@ {
        Flag::KvTokens
    }
     else if s == "--block-size"@ {
        Flag::BlockSize
    }
     else if s == "--prefix-cache"@ {
        Flag::PrefixCache
    } else if s == "-h"@ || s == "--help"@ {
        Flag::Help
    } else {
        Flag::Unknown
    }
}

fn read_flag(s: &str) -> (r: Flag)
    ensures
        r == flag_of(s@),
{
    if same_text(s, "--host") {
        Flag::Host
    }
     else if same_text(s, "--http-base-port") {
        Flag::HttpBasePort
    }
     else if same_text(s, "--http-count") {
        Flag::HttpCount
    }
     else if same_text(s, "--grpc-base-port") {
        Flag::GrpcBasePort
    }
     else if same_text(s, "--grpc-count") {
        Flag::GrpcCount
    }
     else if same_text(s, "--zmq-handshake") {
        Flag::ZmqHandshake
    }
     else if same_text(s, "--zmq-count") {
        Flag::ZmqCount
    }
     else if same_text(s, "--zmq-start-index") {
        Flag::ZmqStartIndex
    }
     else if same_text(s, "--model") {
        Flag::Model
    }
     else if same_text(s, "--tokenizer") {
        Flag::Tokenizer
    }
     else if same_text(s, "--gen-ms") {
        Flag::GenMs
    }
     else if same_text(s, "--output-tokens") {
        Flag::OutputTokens
    }
     else if same_text(s, "--engine") {
        Flag::EngineMode
    }
     else if same_text(s, "--sim-itl-ms") {
        Flag::SimItlMs
    }
     else if same_text(s, "--sim-ttft-base-ms") {
        Flag::SimTtftBaseMs
    }
     else if same_text(s, "--image-placeholder-id") {
        Flag::ImagePlaceholderId
    }
     else if same_text(s, "--image-tokens-per-image") {
        Flag::ImageTokensPerImage
    }
     else if same_text(s, "--image-bytes-per-token") {
        Flag::ImageBytesPerToken
    }
     else if same_text(s, "--prefill-tps") {
        Flag::PrefillTps
    }
     else if same_text(s, "--decode-base-ms") {
        Flag::DecodeBaseMs
    }
     else if same_text(s, "--decode-per-req-ms") {
        Flag::DecodePerReqMs
    }
     else if same_text(s, "--prefill-chunk") {
        Flag::PrefillChunk
    }
     else if same_text(s, "--max-running") {
        Flag::MaxRunning
    }
     else if same_text(s, "--kv-tokens") {
        Flag::KvTokens
    }
     else if same_text(s, "--block-size") {
        Flag::BlockSize
    }
     else if same_text(s, "--prefix-cache") {
        Flag::PrefixCache
    } else if same_text(s, "-h") || same_text(s, "--help") {
        Flag::Help
    } else {
        Flag::Unknown
    }
}

/// The truth value that a text writes.
pub open spec fn bool_of(s: Seq<char>) -> Option<bool> {
    if s == "true"@ {
        Some(true)
    } else if s == "false"@ {
        Some(false)
    } else {
        None
    }
}

fn read_bool(s: &str) -> (r: Option<bool>)
    ensures
        r == bool_of(s@),
{
    proof {
        reveal_strlit("true");
        reveal_strlit("false");
    }
    if same_text(s, "true") {
        Some(true)
    } else if same_text(s, "false") {
        Some(false)
    } else {
        None
    }
}

/// The configuration after a flag with its value, or nothing if the value is
/// invalid. `numeric` says whether the value is a decimal number.
pub open spec fn with_flag(c: ConfigView, flag: Flag, raw: Seq<char>, numeric: bool) -> Option<
    ConfigView,
> {
    match flag {
        Flag::Host => Some(ConfigView { host: raw, ..c }),
        Flag::HttpBasePort => match natural_up_to(raw, u16::MAX as nat) {
            Some(n) => Some(ConfigView { http_base_port: n as u16, ..c }),
            None => None,
        },
        Flag::HttpCount => match natural_up_to(raw, u16::MAX as nat) {
            Some(n) => Some(ConfigView { http_count: n as u16, ..c }),
            None => None,
        },
        Flag::GrpcBasePort => match natural_up_to(raw, u16::MAX as nat) {
            Some(n) => Some(ConfigView { grpc_base_port: n as u16, ..c }),
            None => None,
        },
        Flag::GrpcCount => match natural_up_to(raw, u16::MAX as nat) {
            Some(n) => Some(ConfigView { grpc_count: n as u16, ..c }),
            None => None,
        },
        Flag::ZmqHandshake => Some(ConfigView { zmq_handshake: Some(raw), ..c }),
        Flag::ZmqCount => match natural_up_to(raw, u16::MAX as nat) {
            Some(n) => Some(ConfigView { zmq_count: n as u16, ..c }),
            None => None,
        },
        Flag::ZmqStartIndex => match natural_up_to(raw, u32::MAX as nat) {
            Some(n) => Some(ConfigView { zmq_start_index: n as u32, ..c }),
            None => None,
        },
        Flag::Model => Some(ConfigView { model_id: raw, ..c }),
        Flag::Tokenizer => Some(ConfigView { tokenizer_path: raw, ..c }),
        Flag::GenMs => match natural_up_to(raw, u64::MAX as nat) {
            Some(n) => Some(ConfigView { gen_delay_ms: n as u64, ..c }),
            None => None,
        },
        Flag::OutputTokens => match natural_up_to(raw, u32::MAX as nat) {
            Some(n) => Some(ConfigView { output_tokens: n as u32, ..c }),
            None => None,
        },
        Flag::EngineMode => if raw == "realistic"@ {
            Some(ConfigView { realistic: true, sim: false, ..c })
        } else if raw == "sim"@ {
            Some(ConfigView { realistic: false, sim: true, ..c })
        } else if raw == "canned"@ {
            Some(ConfigView { realistic: false, sim: false, ..c })
        } else {
            None
        },
        Flag::SimItlMs => if numeric {
            Some(ConfigView { sim_timing: SimTimingView { itl_ms: raw, ..c.sim_timing }, ..c })
        } else {
            None
        },
        Flag::SimTtftBaseMs => if numeric {
            Some(ConfigView { sim_timing: SimTimingView { ttft_base_ms: raw, ..c.sim_timing }, ..c })
        } else {
            None
        },
        Flag::ImagePlaceholderId => match natural_up_to(raw, u32::MAX as nat) {
            Some(n) => Some(ConfigView { sim_params: SimParams { image_placeholder_id: n as u32, ..c.sim_params }, ..c }),
            None => None,
        },
        Flag::ImageTokensPerImage => match natural_up_to(raw, usize::MAX as nat) {
            Some(n) => Some(ConfigView { sim_params: SimParams { image_tokens_per_image: n as usize, ..c.sim_params }, ..c }),
            None => None,
        },
        Flag::ImageBytesPerToken => match natural_up_to(raw, usize::MAX as nat) {
            Some(n) => Some(ConfigView { sim_params: SimParams { image_bytes_per_token: n as usize, ..c.sim_params }, ..c }),
            None => None,
        },
        Flag::PrefillTps => if numeric {
            Some(ConfigView { engine: EngineParamsView { prefill_tps: raw, ..c.engine }, sim_timing: SimTimingView { prefill_tps: raw, ..c.sim_timing }, ..c })
        } else {
            None
        },
        Flag::DecodeBaseMs => if numeric {
            Some(ConfigView { engine: EngineParamsView { decode_base_ms: raw, ..c.engine }, ..c })
        } else {
            None
        },
        Flag::DecodePerReqMs => if numeric {
            Some(ConfigView { engine: EngineParamsView { decode_per_req_ms: raw, ..c.engine }, ..c })
        } else {
            None
        },
        Flag::PrefillChunk => match natural_up_to(raw, usize::MAX as nat) {
            Some(n) => Some(ConfigView { engine: EngineParamsView { prefill_chunk_tokens: n as usize, ..c.engine }, ..c }),
            None => None,
        },
        Flag::MaxRunning => match natural_up_to(raw, usize::MAX as nat) {
            Some(n) => Some(ConfigView { engine: EngineParamsView { max_running: n as usize, ..c.engine }, sim_params: SimParams { max_running: n as usize, ..c.sim_params }, ..c }),
            None => None,
        },
        Flag::KvTokens => match natural_up_to(raw, u64::MAX as nat) {
            Some(n) => Some(ConfigView { engine: EngineParamsView { kv_capacity_tokens: n as u64, ..c.engine }, sim_params: SimParams { kv_capacity_tokens: n as u64, ..c.sim_params }, ..c }),
            None => None,
        },
        Flag::BlockSize => match natural_up_to(raw, u32::MAX as nat) {
            Some(n) => Some(ConfigView { engine: EngineParamsView { block_size: n as u32, ..c.engine }, sim_params: SimParams { block_size: n as usize, ..c.sim_params }, ..c }),
            None => None,
        },
        Flag::PrefixCache => match bool_of(raw) {
            Some(b) => Some(ConfigView { engine: EngineParamsView { prefix_cache: b, ..c.engine }, ..c }),
            None => None,
        },
        Flag::Help => None,
        Flag::Unknown => None,
    }
}

/// Sets what a flag sets. Returns whether the value was valid.
fn set_flag(c: &mut Config, flag: Flag, raw: &str, numeric: bool) -> (r: bool)
    ensures
        match with_flag(old(c)@, flag, raw@, numeric) {
            Some(post) => r && final(c)@ == post,
            None => !r && final(c)@ == old(c)@,
        },
{
    match flag {
        Flag::Host => {
            c.host = raw.to_owned();
            true
        },
        Flag::HttpBasePort => match text::parse_natural(raw, u16::MAX as u64) {
            Some(n) => {
                c.http_base_port = n as u16;
                true
            },
            None => false,
        },
        Flag::HttpCount => match text::parse_natural(raw, u16::MAX as u64) {
            Some(n) => {
                c.http_count = n as u16;
                true
            },
            None => false,
        },
        Flag::GrpcBasePort => match text::parse_natural(raw, u16::MAX as u64) {
            Some(n) => {
                c.grpc_base_port = n as u16;
                true
            },
            None => false,
        },
        Flag::GrpcCount => match text::parse_natural(raw, u16::MAX as u64) {
            Some(n) => {
                c.grpc_count = n as u16;
                true
            },
            None => false,
        },
        Flag::ZmqHandshake => {
            c.zmq_handshake = Some(raw.to_owned());
            true
        },
        Flag::ZmqCount => match text::parse_natural(raw, u16::MAX as u64) {
            Some(n) => {
                c.zmq_count = n as u16;
                true
            },
            None => false,
        },
        Flag::ZmqStartIndex => match text::parse_natural(raw, u32::MAX as u64) {
            Some(n) => {
                c.zmq_start_index = n as u32;
                true
            },
            None => false,
        },
        Flag::Model => {
            c.model_id = raw.to_owned();
            true
        },
        Flag::Tokenizer => {
            c.tokenizer_path = raw.to_owned();
            true
        },
        Flag::GenMs => match text::parse_natural(raw, u64::MAX as u64) {
            Some(n) => {
                c.gen_delay_ms = n as u64;
                true
            },
            None => false,
        },
        Flag::OutputTokens => match text::parse_natural(raw, u32::MAX as u64) {
            Some(n) => {
                c.output_tokens = n as u32;
                true
            },
            None => false,
        },
        Flag::EngineMode => {
            let realistic: bool = same_text(raw, "realistic");
            let sim: bool = same_text(raw, "sim");
            let canned: bool = same_text(raw, "canned");
            proof {
                reveal_strlit("realistic");
                reveal_strlit("sim");
                reveal_strlit("canned");
            }
            if realistic || sim || canned {
                c.realistic = realistic;
                c.sim = sim;
                true
            } else {
                false
            }
        },
        Flag::SimItlMs => if numeric {
            c.sim_timing.itl_ms = raw.to_owned();
            true
        } else {
            false
        },
        Flag::SimTtftBaseMs => if numeric {
            c.sim_timing.ttft_base_ms = raw.to_owned();
            true
        } else {
            false
        },
        Flag::ImagePlaceholderId => match text::parse_natural(raw, u32::MAX as u64) {
            Some(n) => {
                c.sim_params.image_placeholder_id = n as u32;
                true
            },
            None => false,
        },
        Flag::ImageTokensPerImage => match text::parse_natural(raw, usize::MAX as u64) {
            Some(n) => {
                c.sim_params.image_tokens_per_image = n as usize;
                true
            },
            None => false,
        },
        Flag::ImageBytesPerToken => match text::parse_natural(raw, usize::MAX as u64) {
            Some(n) => {
                c.sim_params.image_bytes_per_token = n as usize;
                true
            },
            None => false,
        },
        Flag::PrefillTps => if numeric {
            c.engine.prefill_tps = raw.to_owned();
            c.sim_timing.prefill_tps = raw.to_owned();
            true
        } else {
            false
        },
        Flag::DecodeBaseMs => if numeric {
            c.engine.decode_base_ms = raw.to_owned();
            true
        } else {
            false
        },
        Flag::DecodePerReqMs => if numeric {
            c.engine.decode_per_req_ms = raw.to_owned();
            true
        } else {
            false
        },
        Flag::PrefillChunk => match text::parse_natural(raw, usize::MAX as u64) {
            Some(n) => {
                c.engine.prefill_chunk_tokens = n as usize;
                true
            },
            None => false,
        },
        Flag::MaxRunning => match text::parse_natural(raw, usize::MAX as u64) {
            Some(n) => {
                c.engine.max_running = n as usize;
                c.sim_params.max_running = n as usize;
                true
            },
            None => false,
        },
        Flag::KvTokens => match text::parse_natural(raw, u64::MAX as u64) {
            Some(n) => {
                c.engine.kv_capacity_tokens = n as u64;
                c.sim_params.kv_capacity_tokens = n as u64;
                true
            },
            None => false,
        },
        Flag::BlockSize => match text::parse_natural(raw, u32::MAX as u64) {
            Some(n) => {
                c.engine.block_size = n as u32;
                c.sim_params.block_size = n as usize;
                true
            },
            None => false,
        },
        Flag::PrefixCache => match read_bool(raw) {
            Some(b) => {
                c.engine.prefix_cache = b;
                true
            },
            None => false,
        },
        Flag::Help => false,
        Flag::Unknown => false,
    }
}

/// What is said of an invalid value.
pub open spec fn invalid(flag: Flag, name: Seq<char>, raw: Seq<char>) -> Seq<char> {
    if flag == Flag::EngineMode {
        "--engine must be canned|realistic|sim, got "@ + raw
    } else {
        "invalid value for "@ + name + ": "@ + raw
    }
}

/// The configuration after some arguments, or what is wrong with them. `numeric`
/// says of every argument whether it is a decimal number.
pub open spec fn with_args(c: ConfigView, args: Seq<Seq<char>>, numeric: Seq<bool>) -> Result<
    ConfigView,
    Seq<char>,
>
    decreases args.len(),
{
    if args.len() == 0 {
        Ok(c)
    } else {
        let flag = flag_of(args[0]);
        if flag == Flag::Help {
            Err(USAGE@)
        } else if flag == Flag::Unknown {
            Err("unknown flag: "@ + args[0] + "\n\n"@ + USAGE@)
        } else if args.len() == 1 {
            Err("missing value for "@ + args[0])
        } else {
            match with_flag(c, flag, args[1], numeric[1]) {
                Some(next) => with_args(next, args.skip(2), numeric.skip(2)),
                None => Err(invalid(flag, args[0], args[1])),
            }
        }
    }
}

/// A configuration in which what follows from the arguments is filled in, or
/// what is missing.
pub open spec fn settled(c: ConfigView) -> Result<ConfigView, Seq<char>> {
    let done = ConfigView {
        tokenizer_path: if c.tokenizer_path.len() == 0 {
            c.model_id
        } else {
            c.tokenizer_path
        },
        engine: EngineParamsView { max_new_default: c.output_tokens, ..c.engine },
        ..c
    };
    if c.http_count == 0 && c.grpc_count == 0 && c.zmq_count == 0 {
        Err(
            "nothing to do: pass --http-count, --grpc-count, and/or --zmq-count\n\n"@ + USAGE@,
        )
    } else if c.grpc_count > 0 && c.grpc_base_port == 0 {
        Err("--grpc-base-port is required when --grpc-count > 0"@)
    } else if c.zmq_count > 0 && c.zmq_handshake is None {
        Err("--zmq-handshake <ipc://…> is required when --zmq-count > 0"@)
    } else {
        Ok(done)
    }
}

/// What some arguments configure.
pub open spec fn configured(args: Seq<Seq<char>>, numeric: Seq<bool>) -> Result<ConfigView, Seq<char>> {
    match with_args(initial(), args, numeric) {
        Ok(c) => settled(c),
        Err(e) => Err(e),
    }
}

/// Arguments as plain values.
pub open spec fn arg_texts(args: Seq<String>) -> Seq<Seq<char>> {
    args.map_values(|s: String| s@)
}

/// A message made of parts.
fn message(a: &str, b: &str, c: &str, d: &str) -> (r: String)
    ensures
        r@ == a@ + b@ + c@ + d@,
{
    let mut out = a.to_owned();
    out.append(b);
    out.append(c);
    out.append(d);
    out
}

impl Config {
    /// Reads the arguments that follow the program's name. `numeric` says of every
    /// argument whether it is a decimal number.
    pub fn from_args(args: &Vec<String>, numeric: &Vec<bool>) -> (r: Result<Config, String>)
        requires
            numeric@.len() == args@.len(),
        ensures
            match (r, configured(arg_texts(args@), numeric@)) {
                (Ok(c), Ok(v)) => c@ == v,
                (Err(e), Err(v)) => e@ == v,
                _ => false,
            },
    {
        let mut cfg = initial_config();
        let mut i: usize = 0;
        let ghost all = arg_texts(args@);
        proof {
            assert(all.skip(0) =~= all);
            assert(numeric@.skip(0) =~= numeric@);
        }
        while i < args.len()
            invariant
                all == arg_texts(args@),
                numeric@.len() == args@.len(),
                i <= args@.len(),
                with_args(initial(), all, numeric@) == with_args(
                    cfg@,
                    all.skip(i as int),
                    numeric@.skip(i as int),
                ),
            decreases args@.len() - i,
        {
            let name = args[i].as_str();
            let flag = read_flag(name);
            let ghost rest = all.skip(i as int);
            proof {
                assert(rest[0] == name@);
                reveal_strlit("");
            }
            if flag == Flag::Help {
                return Err(USAGE.to_owned());
            }
            if flag == Flag::Unknown {
                return Err(message("unknown flag: ", name, "\n\n", USAGE));
            }
            if args.len() - i == 1 {
                let out = message("missing value for ", name, "", "");
                assert(out@ =~= "missing value for "@ + name@);
                return Err(out);
            }
            let raw = args[i + 1].as_str();
            proof {
                assert(rest[1] == raw@);
                assert(numeric@.skip(i as int)[1] == numeric@[i + 1]);
                assert(rest.skip(2) =~= all.skip(i + 2));
                assert(numeric@.skip(i as int).skip(2) =~= numeric@.skip(i + 2));
            }
            if !set_flag(&mut cfg, flag, raw, numeric[i + 1]) {
                if flag == Flag::EngineMode {
                    let out = message(
                        "--engine must be canned|realistic|sim, got ",
                        raw,
                        "",
                        "",
                    );
                    assert(out@ =~= "--engine must be canned|realistic|sim, got "@ + raw@);
                    return Err(out);
                }
                return Err(message("invalid value for ", name, ": ", raw));
            }
            i = i + 2;
        }
        proof {
            assert(all.skip(i as int) =~= Seq::<Seq<char>>::empty());
        }
        if cfg.tokenizer_path.as_str().is_empty() {
            cfg.tokenizer_path = cfg.model_id.clone();
        }
        cfg.engine.max_new_default = cfg.output_tokens;
        if cfg.http_count == 0 && cfg.grpc_count == 0 && cfg.zmq_count == 0 {
            let mut out =
                "nothing to do: pass --http-count, --grpc-count, and/or --zmq-count\n\n".to_owned();
            out.append(USAGE);
            return Err(out);
        }
        if cfg.grpc_count > 0 && cfg.grpc_base_port == 0 {
            return Err("--grpc-base-port is required when --grpc-count > 0".to_owned());
        }
        if cfg.zmq_count > 0 && cfg.zmq_handshake.is_none() {
            return Err("--zmq-handshake <ipc://…> is required when --zmq-count > 0".to_owned());
        }
        Ok(cfg)
    }
}

/// Invalid, missing or unknown arguments end the reading where they stand: what
/// follows them does not change what is said.
pub proof fn later_arguments_do_not_hide_errors(
    c: ConfigView,
    args: Seq<Seq<char>>,
    numeric: Seq<bool>,
    more: Seq<Seq<char>>,
    more_numeric: Seq<bool>,
)
    requires
        with_args(c, args, numeric) is Err,
        numeric.len() == args.len(),
        more.len() == more_numeric.len(),
        args.len() % 2 == 0,
    ensures
        with_args(c, args + more, numeric + more_numeric) == with_args(c, args, numeric),
    decreases args.len(),
{
    if args.len() > 0 {
        let all = args + more;
        assert(all[0] == args[0] && all[1] == args[1]);
        assert((numeric + more_numeric)[1] == numeric[1]);
        assert(all.skip(2) =~= args.skip(2) + more);
        assert((numeric + more_numeric).skip(2) =~= numeric.skip(2) + more_numeric);
        match with_flag(c, flag_of(args[0]), args[1], numeric[1]) {
            Some(next) => {
                if flag_of(args[0]) != Flag::Help && flag_of(args[0]) != Flag::Unknown {
                    later_arguments_do_not_hide_errors(
                        next,
                        args.skip(2),
                        numeric.skip(2),
                        more,
                        more_numeric,
                    );
                }
            },
            None => {},
        }
    }
}

} // verus!
