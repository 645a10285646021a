//! What arguments configure: each flag sets what it names, and nothing else.

use super::config::configured;
use super::config::flag_of;
use super::config::initial;
use super::config::invalid;
use super::config::settled;
use super::config::with_args;
use super::config::with_flag;
use super::config::ConfigView;
use super::config::EngineParamsView;
use super::config::Flag;
use super::config::SimTimingView;
use super::config::USAGE;
use super::sim::SimParams;
use crate::text::decimal;
use crate::text::middles_are_within;
use crate::text::within;
use crate::text::written_numbers_are_read;
use vstd::prelude::*;

verus! {

/// The configuration after one flag and its value.
pub open spec fn after(c: ConfigView, name: &str, value: Seq<char>, numeric: bool) -> Result<
    ConfigView,
    Seq<char>,
> {
    with_args(c, seq![name@, value], seq![false, numeric])
}

/// A configuration.
pub open spec fn becomes(r: Result<ConfigView, Seq<char>>, c: ConfigView) -> bool {
    r == Ok::<ConfigView, Seq<char>>(c)
}

proof fn flags_have_names()
    ensures
        flag_of("--host"@) == Flag::Host,
        flag_of("--http-base-port"@) == Flag::HttpBasePort,
        flag_of("--http-count"@) == Flag::HttpCount,
        flag_of("--grpc-base-port"@) == Flag::GrpcBasePort,
        flag_of("--grpc-count"@) == Flag::GrpcCount,
        flag_of("--zmq-handshake"@) == Flag::ZmqHandshake,
        flag_of("--zmq-count"@) == Flag::ZmqCount,
        flag_of("--zmq-start-index"@) == Flag::ZmqStartIndex,
        flag_of("--model"@) == Flag::Model,
        flag_of("--tokenizer"@) == Flag::Tokenizer,
        flag_of("--gen-ms"@) == Flag::GenMs,
        flag_of("--output-tokens"@) == Flag::OutputTokens,
        flag_of("--engine"@) == Flag::EngineMode,
        flag_of("--sim-itl-ms"@) == Flag::SimItlMs,
        flag_of("--sim-ttft-base-ms"@) == Flag::SimTtftBaseMs,
        flag_of("--image-placeholder-id"@) == Flag::ImagePlaceholderId,
        flag_of("--image-tokens-per-image"@) == Flag::ImageTokensPerImage,
        flag_of("--image-bytes-per-token"@) == Flag::ImageBytesPerToken,
        flag_of("--prefill-tps"@) == Flag::PrefillTps,
        flag_of("--decode-base-ms"@) == Flag::DecodeBaseMs,
        flag_of("--decode-per-req-ms"@) == Flag::DecodePerReqMs,
        flag_of("--prefill-chunk"@) == Flag::PrefillChunk,
        flag_of("--max-running"@) == Flag::MaxRunning,
        flag_of("--kv-tokens"@) == Flag::KvTokens,
        flag_of("--block-size"@) == Flag::BlockSize,
        flag_of("--prefix-cache"@) == Flag::PrefixCache,
        flag_of("-h"@) == Flag::Help,
        flag_of("--help"@) == Flag::Help,
{
    reveal_strlit("--host");
    reveal_strlit("--http-base-port");
    reveal_strlit("--http-count");
    reveal_strlit("--grpc-base-port");
    reveal_strlit("--grpc-count");
    reveal_strlit("--zmq-handshake");
    reveal_strlit("--zmq-count");
    reveal_strlit("--zmq-start-index");
    reveal_strlit("--model");
    reveal_strlit("--tokenizer");
    reveal_strlit("--gen-ms");
    reveal_strlit("--output-tokens");
    reveal_strlit("--engine");
    reveal_strlit("--sim-itl-ms");
    reveal_strlit("--sim-ttft-base-ms");
    reveal_strlit("--image-placeholder-id");
    reveal_strlit("--image-tokens-per-image");
    reveal_strlit("--image-bytes-per-token");
    reveal_strlit("--prefill-tps");
    reveal_strlit("--decode-base-ms");
    reveal_strlit("--decode-per-req-ms");
    reveal_strlit("--prefill-chunk");
    reveal_strlit("--max-running");
    reveal_strlit("--kv-tokens");
    reveal_strlit("--block-size");
    reveal_strlit("--prefix-cache");
    reveal_strlit("-h");
    reveal_strlit("--help");
    assert("--host"@.len() == 6);
    assert("--http-base-port"@.len() == 16);
    assert("--http-count"@.len() == 12);
    assert("--grpc-base-port"@.len() == 16);
    assert("--grpc-count"@.len() == 12);
    assert("--zmq-handshake"@.len() == 15);
    assert("--zmq-count"@.len() == 11);
    assert("--zmq-start-index"@.len() == 17);
    assert("--model"@.len() == 7);
    assert("--tokenizer"@.len() == 11);
    assert("--gen-ms"@.len() == 8);
    assert("--output-tokens"@.len() == 15);
    assert("--engine"@.len() == 8);
    assert("--sim-itl-ms"@.len() == 12);
    assert("--sim-ttft-base-ms"@.len() == 18);
    assert("--image-placeholder-id"@.len() == 22);
    assert("--image-tokens-per-image"@.len() == 24);
    assert("--image-bytes-per-token"@.len() == 23);
    assert("--prefill-tps"@.len() == 13);
    assert("--decode-base-ms"@.len() == 16);
    assert("--decode-per-req-ms"@.len() == 19);
    assert("--prefill-chunk"@.len() == 15);
    assert("--max-running"@.len() == 13);
    assert("--kv-tokens"@.len() == 11);
    assert("--block-size"@.len() == 12);
    assert("--prefix-cache"@.len() == 14);
    assert("-h"@.len() == 2);
    assert("--help"@.len() == 6);
    assert("--block-size"@[2] == 'b');
    assert("--decode-base-ms"@[2] == 'd');
    assert("--engine"@[2] == 'e');
    assert("--gen-ms"@[2] == 'g');
    assert("--grpc-base-port"@[2] == 'g');
    assert("--grpc-count"@[2] == 'g');
    assert("--help"@[3] == 'e');
    assert("--host"@[3] == 'o');
    assert("--http-base-port"@[2] == 'h');
    assert("--http-count"@[2] == 'h');
    assert("--kv-tokens"@[2] == 'k');
    assert("--max-running"@[2] == 'm');
    assert("--output-tokens"@[2] == 'o');
    assert("--prefill-chunk"@[2] == 'p');
    assert("--prefill-tps"@[2] == 'p');
    assert("--sim-itl-ms"@[2] == 's');
    assert("--tokenizer"@[2] == 't');
    assert("--zmq-count"@[2] == 'z');
    assert("--zmq-handshake"@[2] == 'z');
}

proof fn one_pair(c: ConfigView, name: Seq<char>, value: Seq<char>, numeric: bool)
    ensures
        flag_of(name) != Flag::Help && flag_of(name) != Flag::Unknown ==> with_args(
            c,
            seq![name, value],
            seq![false, numeric],
        ) == match with_flag(c, flag_of(name), value, numeric) {
            Some(d) => Ok::<ConfigView, Seq<char>>(d),
            None => Err(invalid(flag_of(name), name, value)),
        },
{
    let args = seq![name, value];
    let kinds = seq![false, numeric];
    assert(args.skip(2) =~= Seq::empty());
    assert(args[0] == name && args[1] == value && kinds[1] == numeric);
    match with_flag(c, flag_of(name), value, numeric) {
        Some(d) => {
            assert(with_args(d, args.skip(2), kinds.skip(2)) == Ok::<ConfigView, Seq<char>>(d));
        },
        None => {},
    }
}

proof fn one_flag(c: ConfigView, name: &str, value: Seq<char>, numeric: bool)
    ensures
        flag_of(name@) != Flag::Help && flag_of(name@) != Flag::Unknown ==> after(
            c,
            name,
            value,
            numeric,
        ) == match with_flag(c, flag_of(name@), value, numeric) {
            Some(d) => Ok::<ConfigView, Seq<char>>(d),
            None => Err(invalid(flag_of(name@), name@, value)),
        },
{
    one_pair(c, name@, value, numeric);
}

/// Ports, counts and the length of an output are set to the number that is written, as far
/// as it fits.
pub proof fn counts_and_ports_are_set(c: ConfigView, n: nat, numeric: bool)
    ensures
        n <= u16::MAX ==> becomes(
            after(c, "--http-base-port", decimal(n), numeric),
            (ConfigView { http_base_port: n as u16, ..c }),
        ),
        n > u16::MAX ==> after(c, "--http-base-port", decimal(n), numeric) is Err,
        n <= u16::MAX ==> becomes(
            after(c, "--http-count", decimal(n), numeric),
            (ConfigView { http_count: n as u16, ..c }),
        ),
        n > u16::MAX ==> after(c, "--http-count", decimal(n), numeric) is Err,
        n <= u16::MAX ==> becomes(
            after(c, "--grpc-base-port", decimal(n), numeric),
            (ConfigView { grpc_base_port: n as u16, ..c }),
        ),
        n > u16::MAX ==> after(c, "--grpc-base-port", decimal(n), numeric) is Err,
        n <= u16::MAX ==> becomes(
            after(c, "--grpc-count", decimal(n), numeric),
            (ConfigView { grpc_count: n as u16, ..c }),
        ),
        n > u16::MAX ==> after(c, "--grpc-count", decimal(n), numeric) is Err,
        n <= u16::MAX ==> becomes(
            after(c, "--zmq-count", decimal(n), numeric),
            (ConfigView { zmq_count: n as u16, ..c }),
        ),
        n > u16::MAX ==> after(c, "--zmq-count", decimal(n), numeric) is Err,
        n <= u32::MAX ==> becomes(
            after(c, "--zmq-start-index", decimal(n), numeric),
            (ConfigView { zmq_start_index: n as u32, ..c }),
        ),
        n > u32::MAX ==> after(c, "--zmq-start-index", decimal(n), numeric) is Err,
        n <= u64::MAX ==> becomes(
            after(c, "--gen-ms", decimal(n), numeric),
            (ConfigView { gen_delay_ms: n as u64, ..c }),
        ),
        n > u64::MAX ==> after(c, "--gen-ms", decimal(n), numeric) is Err,
        n <= u32::MAX ==> becomes(
            after(c, "--output-tokens", decimal(n), numeric),
            (ConfigView { output_tokens: n as u32, ..c }),
        ),
        n > u32::MAX ==> after(c, "--output-tokens", decimal(n), numeric) is Err,
{
    flags_have_names();
    written_numbers_are_read(n);
    one_flag(c, "--http-base-port", decimal(n), numeric);
    one_flag(c, "--http-count", decimal(n), numeric);
    one_flag(c, "--grpc-base-port", decimal(n), numeric);
    one_flag(c, "--grpc-count", decimal(n), numeric);
    one_flag(c, "--zmq-count", decimal(n), numeric);
    one_flag(c, "--zmq-start-index", decimal(n), numeric);
    one_flag(c, "--gen-ms", decimal(n), numeric);
    one_flag(c, "--output-tokens", decimal(n), numeric);
}

/// What images cost is set to the number that is written.
pub proof fn image_settings_are_set(c: ConfigView, n: nat, numeric: bool)
    ensures
        n <= u32::MAX ==> becomes(
            after(c, "--image-placeholder-id", decimal(n), numeric),
            (ConfigView { sim_params: SimParams { image_placeholder_id: n as u32, ..c.sim_params }, ..c }),
        ),
        n > u32::MAX ==> after(c, "--image-placeholder-id", decimal(n), numeric) is Err,
        n <= usize::MAX ==> becomes(
            after(c, "--image-tokens-per-image", decimal(n), numeric),
            (ConfigView { sim_params: SimParams { image_tokens_per_image: n as usize, ..c.sim_params }, ..c }),
        ),
        n > usize::MAX ==> after(c, "--image-tokens-per-image", decimal(n), numeric) is Err,
        n <= usize::MAX ==> becomes(
            after(c, "--image-bytes-per-token", decimal(n), numeric),
            (ConfigView { sim_params: SimParams { image_bytes_per_token: n as usize, ..c.sim_params }, ..c }),
        ),
        n > usize::MAX ==> after(c, "--image-bytes-per-token", decimal(n), numeric) is Err,
{
    flags_have_names();
    written_numbers_are_read(n);
    one_flag(c, "--image-placeholder-id", decimal(n), numeric);
    one_flag(c, "--image-tokens-per-image", decimal(n), numeric);
    one_flag(c, "--image-bytes-per-token", decimal(n), numeric);
}

/// Both engines run as many requests, have as much room and the same blocks as is written;
/// how much is prefilled at once concerns the realistic one alone.
pub proof fn engines_share_their_sizes(c: ConfigView, n: nat, numeric: bool)
    ensures
        n <= usize::MAX ==> becomes(
            after(c, "--prefill-chunk", decimal(n), numeric),
            (ConfigView { engine: EngineParamsView { prefill_chunk_tokens: n as usize, ..c.engine }, ..c }),
        ),
        n > usize::MAX ==> after(c, "--prefill-chunk", decimal(n), numeric) is Err,
        n <= usize::MAX ==> becomes(
            after(c, "--max-running", decimal(n), numeric),
            (ConfigView { engine: EngineParamsView { max_running: n as usize, ..c.engine }, sim_params: SimParams { max_running: n as usize, ..c.sim_params }, ..c }),
        ),
        n > usize::MAX ==> after(c, "--max-running", decimal(n), numeric) is Err,
        n <= u64::MAX ==> becomes(
            after(c, "--kv-tokens", decimal(n), numeric),
            (ConfigView { engine: EngineParamsView { kv_capacity_tokens: n as u64, ..c.engine }, sim_params: SimParams { kv_capacity_tokens: n as u64, ..c.sim_params }, ..c }),
        ),
        n > u64::MAX ==> after(c, "--kv-tokens", decimal(n), numeric) is Err,
        n <= u32::MAX ==> becomes(
            after(c, "--block-size", decimal(n), numeric),
            (ConfigView { engine: EngineParamsView { block_size: n as u32, ..c.engine }, sim_params: SimParams { block_size: n as usize, ..c.sim_params }, ..c }),
        ),
        n > u32::MAX ==> after(c, "--block-size", decimal(n), numeric) is Err,
{
    flags_have_names();
    written_numbers_are_read(n);
    one_flag(c, "--prefill-chunk", decimal(n), numeric);
    one_flag(c, "--max-running", decimal(n), numeric);
    one_flag(c, "--kv-tokens", decimal(n), numeric);
    one_flag(c, "--block-size", decimal(n), numeric);
}

/// Texts are set as they are written.
pub proof fn texts_are_set(c: ConfigView, s: Seq<char>, numeric: bool)
    ensures
        becomes(after(c, "--host", s, numeric), (ConfigView { host: s, ..c })),
        becomes(after(c, "--model", s, numeric), (ConfigView { model_id: s, ..c })),
        becomes(after(c, "--tokenizer", s, numeric), (ConfigView { tokenizer_path: s, ..c })),
        becomes(
            after(c, "--zmq-handshake", s, numeric),
            (ConfigView { zmq_handshake: Some(s), ..c }),
        ),
{
    flags_have_names();
    one_flag(c, "--host", s, numeric);
    one_flag(c, "--model", s, numeric);
    one_flag(c, "--tokenizer", s, numeric);
    one_flag(c, "--zmq-handshake", s, numeric);
}

/// Rates are set as they are written, if they are decimal numbers; both engines prefill at
/// one rate.
pub proof fn rates_are_set(c: ConfigView, s: Seq<char>)
    ensures
        becomes(
            after(c, "--sim-itl-ms", s, true),
            (ConfigView { sim_timing: SimTimingView { itl_ms: s, ..c.sim_timing }, ..c }),
        ),
        becomes(
            after(c, "--sim-ttft-base-ms", s, true),
            (ConfigView { sim_timing: SimTimingView { ttft_base_ms: s, ..c.sim_timing }, ..c }),
        ),
        becomes(
            after(c, "--prefill-tps", s, true),
            (ConfigView {
                engine: EngineParamsView { prefill_tps: s, ..c.engine },
                sim_timing: SimTimingView { prefill_tps: s, ..c.sim_timing },
                ..c
            }),
        ),
        becomes(
            after(c, "--decode-base-ms", s, true),
            (ConfigView { engine: EngineParamsView { decode_base_ms: s, ..c.engine }, ..c }),
        ),
        becomes(
            after(c, "--decode-per-req-ms", s, true),
            (ConfigView { engine: EngineParamsView { decode_per_req_ms: s, ..c.engine }, ..c }),
        ),
        after(c, "--sim-itl-ms", s, false) is Err,
        after(c, "--sim-ttft-base-ms", s, false) is Err,
        after(c, "--prefill-tps", s, false) is Err,
        after(c, "--decode-base-ms", s, false) is Err,
        after(c, "--decode-per-req-ms", s, false) is Err,
{
    flags_have_names();
    one_flag(c, "--sim-itl-ms", s, true);
    one_flag(c, "--sim-ttft-base-ms", s, true);
    one_flag(c, "--prefill-tps", s, true);
    one_flag(c, "--decode-base-ms", s, true);
    one_flag(c, "--decode-per-req-ms", s, true);
    one_flag(c, "--sim-itl-ms", s, false);
    one_flag(c, "--sim-ttft-base-ms", s, false);
    one_flag(c, "--prefill-tps", s, false);
    one_flag(c, "--decode-base-ms", s, false);
    one_flag(c, "--decode-per-req-ms", s, false);
}

/// There are three engines, and one is in use: the one that was named last. The prefix cache
/// is on or off.
pub proof fn engines_are_chosen(c: ConfigView, s: Seq<char>, numeric: bool)
    ensures
        s == "realistic"@ ==> becomes(
            after(c, "--engine", s, numeric),
            (ConfigView { realistic: true, sim: false, ..c }),
        ),
        s == "sim"@ ==> becomes(
            after(c, "--engine", s, numeric),
            (ConfigView { realistic: false, sim: true, ..c }),
        ),
        s == "canned"@ ==> becomes(
            after(c, "--engine", s, numeric),
            (ConfigView { realistic: false, sim: false, ..c }),
        ),
        s != "realistic"@ && s != "sim"@ && s != "canned"@ ==> after(c, "--engine", s, numeric) is
            Err,
        s == "true"@ || s == "false"@ ==> becomes(
            after(c, "--prefix-cache", s, numeric),
            (ConfigView {
                engine: EngineParamsView { prefix_cache: s == "true"@, ..c.engine },
                ..c
            }),
        ),
        s != "true"@ && s != "false"@ ==> after(c, "--prefix-cache", s, numeric) is Err,
{
    reveal_strlit("realistic");
    reveal_strlit("sim");
    reveal_strlit("canned");
    reveal_strlit("true");
    reveal_strlit("false");
    assert("realistic"@.len() == 9 && "sim"@.len() == 3 && "canned"@.len() == 6);
    assert("true"@.len() == 4 && "false"@.len() == 5);
    flags_have_names();
    one_flag(c, "--engine", s, numeric);
    one_flag(c, "--prefix-cache", s, numeric);
}

/// Arguments are read in pairs, one pair after the other: what the first ones configure, the
/// later ones change.
pub proof fn later_arguments_go_on(
    c: ConfigView,
    args: Seq<Seq<char>>,
    numeric: Seq<bool>,
    more: Seq<Seq<char>>,
    more_numeric: Seq<bool>,
    d: ConfigView,
)
    requires
        becomes(with_args(c, args, numeric), d),
        numeric.len() == args.len(),
        more.len() == more_numeric.len(),
    ensures
        with_args(c, args + more, numeric + more_numeric) == with_args(d, more, more_numeric),
    decreases args.len(),
{
    if args.len() == 0 {
        assert(args + more =~= more);
        assert(numeric + more_numeric =~= more_numeric);
    } else {
        let all = args + more;
        assert(all[0] == args[0] && all[1] == args[1]);
        assert((numeric + more_numeric)[1] == numeric[1]);
        assert(all.skip(2) =~= args.skip(2) + more);
        assert((numeric + more_numeric).skip(2) =~= numeric.skip(2) + more_numeric);
        let next = with_flag(c, flag_of(args[0]), args[1], numeric[1])->0;
        later_arguments_go_on(next, args.skip(2), numeric.skip(2), more, more_numeric, d);
    }
}

/// A flag without a value, or one that nobody knows, is named in the complaint; a value that
/// is not understood is quoted.
pub proof fn complaints_name_the_argument(
    c: ConfigView,
    name: Seq<char>,
    value: Seq<char>,
    numeric: bool,
)
    ensures
        flag_of(name) == Flag::Unknown ==> ({
            let r = with_args(c, seq![name, value], seq![false, numeric]);
            r is Err && within(name, r->Err_0)
        }),
        flag_of(name) != Flag::Help ==> ({
            let r = with_args(c, seq![name], seq![false]);
            r is Err && within(name, r->Err_0)
        }),
        flag_of(name) != Flag::Help && flag_of(name) != Flag::Unknown ==> ({
            let r = with_args(c, seq![name, value], seq![false, numeric]);
            r is Err ==> within(value, r->Err_0)
        }),
{
    unknown_flags_fail(c, name, value, numeric);
    lone_flags_fail(c, name);
    one_pair(c, name, value, numeric);
    quoted_values(flag_of(name), name, value);
}

proof fn unknown_flags_fail(c: ConfigView, name: Seq<char>, value: Seq<char>, numeric: bool)
    ensures
        flag_of(name) == Flag::Unknown ==> ({
            let r = with_args(c, seq![name, value], seq![false, numeric]);
            r is Err && within(name, r->Err_0)
        }),
{
    assert(seq![name, value][0] == name);
    let tail = "\n\n"@ + USAGE@;
    middles_are_within("unknown flag: "@, name, tail);
    assert("unknown flag: "@ + name + tail =~= "unknown flag: "@ + name + "\n\n"@ + USAGE@);
}

proof fn lone_flags_fail(c: ConfigView, name: Seq<char>)
    ensures
        flag_of(name) != Flag::Help ==> ({
            let r = with_args(c, seq![name], seq![false]);
            r is Err && within(name, r->Err_0)
        }),
{
    assert(seq![name][0] == name);
    let tail = "\n\n"@ + USAGE@;
    middles_are_within("unknown flag: "@, name, tail);
    assert("unknown flag: "@ + name + tail =~= "unknown flag: "@ + name + "\n\n"@ + USAGE@);
    middles_are_within("missing value for "@, name, Seq::empty());
}

proof fn quoted_values(flag: Flag, name: Seq<char>, value: Seq<char>)
    ensures
        within(value, invalid(flag, name, value)),
{
    middles_are_within("invalid value for "@ + name + ": "@, value, Seq::empty());
    middles_are_within("--engine must be canned|realistic|sim, got "@, value, Seq::empty());
}

/// There has to be a worker, a port for workers over gRPC, and an address for those over
/// sockets. A tokenizer that is not named is the model's, and engines make as much as a
/// worker does where a request does not say; all else stays.
pub proof fn configurations_are_settled(c: ConfigView)
    ensures
        settled(c) is Ok <==> (c.http_count > 0 || c.grpc_count > 0 || c.zmq_count > 0) && (
        c.grpc_count > 0 ==> c.grpc_base_port > 0) && (c.zmq_count > 0 ==> c.zmq_handshake is Some),
        settled(c) matches Ok(d) ==> {
            &&& c.tokenizer_path.len() > 0 ==> d.tokenizer_path == c.tokenizer_path
            &&& c.tokenizer_path.len() == 0 ==> d.tokenizer_path == c.model_id
            &&& d.engine.max_new_default == c.output_tokens
            &&& d == (ConfigView {
                tokenizer_path: d.tokenizer_path,
                engine: EngineParamsView { max_new_default: d.engine.max_new_default, ..c.engine },
                ..c
            })
        },
{
}

/// Without arguments there is nothing to do; a count of workers alone makes canned workers
/// on the local host.
pub proof fn defaults_are_plain(n: u16)
    requires
        n > 0,
    ensures
        configured(Seq::empty(), Seq::empty()) is Err,
        configured(seq!["--http-count"@, decimal(n as nat)], seq![false, true]) matches Ok(c) && {
            &&& c.http_count == n && c.grpc_count == 0 && c.zmq_count == 0
            &&& c.host == "127.0.0.1"@ && c.http_base_port == 9000
            &&& !c.realistic && !c.sim
            &&& c.model_id == "mock-model"@ && c.tokenizer_path == "mock-model"@
            &&& c.gen_delay_ms == 0 && c.output_tokens == 8 && c.zmq_start_index == 0
            &&& c.engine.kv_capacity_tokens == 524_288 && c.engine.block_size == 16
            &&& c.engine.prefill_chunk_tokens == 2048 && c.engine.max_running == 256
            &&& c.engine.prefix_cache && c.engine.max_new_default == 8
            &&& c.engine.prefill_tps == "8000"@ && c.engine.decode_base_ms == "6"@
            &&& c.engine.decode_per_req_ms == "0.35"@
            &&& c.sim_params.kv_capacity_tokens == 1_200_000 && c.sim_params.block_size == 128
            &&& c.sim_params.max_running == 256
            &&& c.sim_params.image_placeholder_id == 151_655
            &&& c.sim_params.image_tokens_per_image == 0
            &&& c.sim_params.image_bytes_per_token == 2800
            &&& c.sim_timing.itl_ms == "43"@ && c.sim_timing.ttft_base_ms == "30"@
            &&& c.sim_timing.prefill_tps == "8000"@
        },
{
    reveal_strlit("");
    counts_and_ports_are_set(initial(), n as nat, true);
}

} // verus!
