use radix_index::mock::config::Config;
use radix_index::mock::grpc::GenEvent;
use radix_index::mock::http::completion;
use radix_index::mock::http::extract_images;
use radix_index::mock::http::extract_input_ids;
use radix_index::mock::http::extract_max_new_tokens;
use radix_index::mock::http::extract_max_tokens;
use radix_index::mock::http::extract_prompt_text;
use radix_index::mock::http::final_chunk;
use radix_index::mock::http::hash_word;
use radix_index::mock::http::loads;
use radix_index::mock::http::models;
use radix_index::mock::http::no_load;
use radix_index::mock::http::parse_body;
use radix_index::mock::http::parse_chat;
use radix_index::mock::http::request_name;
use radix_index::mock::http::sse_step;
use radix_index::mock::http::stream_chat;
use radix_index::mock::http::synth_token_ids;
use radix_index::mock::http::token_chunk;
use radix_index::mock::http::CompletionFold;
use radix_index::mock::http::Endpoint;
use radix_index::mock::http::Rates;
use radix_index::mock::http::SseFrame;
use radix_index::mock::http::SseState;
use serde_json::Value;

fn json(text: &str) -> Value {
    serde_json::from_str(text).unwrap()
}

#[test]
fn text_prompts_derive_stable_prefix_preserving_ids() {
    let turn1 = synth_token_ids("12 3");
    let turn2 = synth_token_ids("12 3 45");
    assert_eq!(turn1.len(), 2);
    assert_eq!(turn2.len(), 3);
    assert_eq!(turn2[..2], turn1[..], "shared text head, shared id head");
    assert_ne!(synth_token_ids("12 4")[1], turn1[1]);

    let v = json(r#"{"text":"12 3 45"}"#);
    assert_eq!(synth_token_ids(&extract_prompt_text(&v)), turn2);
}

#[test]
fn body_extraction_reads_all_generate_fields() {
    let body = json(
        r#"{"input_ids":[1,2,3],"image_data":["aGVsbG8=","d29ybGQ="],
            "sampling_params":{"max_new_tokens":7},"max_tokens":99}"#,
    );
    assert_eq!(extract_input_ids(&body), Some(vec![1, 2, 3]));
    assert_eq!(extract_images(&body).len(), 2);
    assert_eq!(extract_max_new_tokens(&body), Some(7));

    let batch = json(r#"{"input_ids":[[4,5],[6]]}"#);
    assert_eq!(extract_input_ids(&batch), Some(vec![4, 5]));

    let single_image = json(r#"{"image_data":"abc"}"#);
    assert_eq!(extract_images(&single_image), vec!["abc"]);

    let top_level = json(r#"{"max_new_tokens":3}"#);
    assert_eq!(extract_max_new_tokens(&top_level), Some(3));
}

#[test]
fn words_are_cut_at_any_white_space() {
    assert_eq!(synth_token_ids("  a\tb\u{a0}c\n"), synth_token_ids("a b c"));
    assert!(synth_token_ids(" \u{3000} ").is_empty());
    assert_eq!(hash_word(""), 2_166_136_261 % 30_000);
    assert_eq!(hash_word("a"), 0xe40c_292c % 30_000);
}

#[test]
fn prompts_come_from_messages_first() {
    let v = json(r#"{"messages":[{"content":"a"},{"role":"x"},{"content":"b"}],"prompt":"p"}"#);
    assert_eq!(extract_prompt_text(&v), "a b");
    assert_eq!(extract_prompt_text(&json(r#"{"prompt":"p","text":"t"}"#)), "p");
    assert_eq!(extract_prompt_text(&json(r#"{"inputs":"i"}"#)), "i");
    assert_eq!(extract_prompt_text(&json("3")), "");
    assert_eq!(extract_max_tokens(&json(r#"{"max_tokens":2,"max_new_tokens":9}"#)), Some(2));
}

#[test]
fn bodies_have_defaults() {
    let b = parse_body(b"not json", 11);
    assert!(!b.stream);
    assert!(b.input_ids.is_empty());
    assert_eq!(b.max_new, 11);
    assert!(b.images.is_empty());
    let b = parse_body(br#"{"stream":true,"text":"x y","image_data":"i"}"#, 11);
    assert!(b.stream);
    assert_eq!(b.input_ids, synth_token_ids("x y"));
    assert_eq!(b.images, vec!["i".to_string()]);
    let c = parse_chat(br#"{"messages":[{"content":"x y"}],"max_tokens":4}"#, 11);
    assert_eq!((c.stream, c.input_ids.len(), c.max_new), (false, 2, 4));
}

#[test]
fn canned_answers_have_their_shape() {
    let want = json(
        r#"{"id":"chatcmpl-mock","object":"chat.completion","created":0,"model":"m",
            "choices":[{"index":0,"message":{"role":"assistant","content":"mock"},
            "finish_reason":"stop"}],
            "usage":{"prompt_tokens":1,"completion_tokens":5,"total_tokens":6}}"#,
    );
    assert_eq!(completion("m", 5), want);
    let frames = stream_chat(2);
    assert_eq!(frames.len(), 4);
    assert_eq!(frames[0], frames[1]);
    assert_eq!(
        json(&frames[0]),
        json(
            r#"{"id":"chatcmpl-mock","object":"chat.completion.chunk",
                "choices":[{"index":0,"delta":{"content":"x"},"finish_reason":null}]}"#
        )
    );
    assert_eq!(
        json(&frames[2]),
        json(
            r#"{"id":"chatcmpl-mock","object":"chat.completion.chunk",
                "choices":[{"index":0,"delta":{},"finish_reason":"stop"}]}"#
        )
    );
    assert_eq!(frames[3], "[DONE]");
}

#[test]
fn completions_are_not_chat_shaped() {
    assert_eq!(
        token_chunk(Endpoint::Completions, "m"),
        json(
            r#"{"id":"cmpl-mock","object":"text_completion","model":"m",
                "choices":[{"index":0,"text":"x","finish_reason":null}]}"#
        )
    );
    assert_eq!(
        final_chunk(Endpoint::Completions, "m"),
        json(
            r#"{"id":"cmpl-mock","object":"text_completion","model":"m",
                "choices":[{"index":0,"text":"","finish_reason":"stop"}]}"#
        )
    );
}

fn token() -> GenEvent {
    GenEvent::Token { token_id: 1, prompt_tokens: 2, cached_tokens: 0 }
}

fn done() -> GenEvent {
    GenEvent::Done {
        finish_reason: "stop".into(),
        prompt_total: 2,
        completion_tokens: 7,
        cached_total: 3,
    }
}

#[test]
fn counts_come_from_the_engine_at_the_end() {
    let mut fold = CompletionFold { completion_tokens: 0, cached_tokens: 0 };
    fold.step(&token());
    fold.step(&token());
    assert_eq!(fold.completion_tokens, 2);
    fold.step(&done());
    let v = fold.finish(Endpoint::Completions, "m", 2);
    assert_eq!(
        v["usage"],
        json(
            r#"{"prompt_tokens":2,"completion_tokens":7,"total_tokens":9,"cached_tokens":3}"#
        )
    );
    assert_eq!(v["choices"][0]["text"], json("\"mock\""));
    assert_eq!(v["object"], json("\"text_completion\""));
}

#[test]
fn event_streams_close_behind_the_last_frame() {
    let (frame, state) = sse_step(SseState::Active, &Some(token()), Endpoint::Chat, "m");
    assert!(matches!(frame, SseFrame::Data(_)));
    assert_eq!(state, SseState::Active);
    let (_, state) = sse_step(state, &Some(done()), Endpoint::Chat, "m");
    assert_eq!(state, SseState::Closing);
    let (frame, state) = sse_step(state, &None, Endpoint::Chat, "m");
    assert!(matches!(frame, SseFrame::Data(s) if s == "[DONE]"));
    let (frame, _) = sse_step(state, &None, Endpoint::Chat, "m");
    assert!(matches!(frame, SseFrame::End));
    let (frame, state) = sse_step(SseState::Active, &None, Endpoint::Chat, "m");
    assert!(matches!(frame, SseFrame::End));
    assert_eq!(state, SseState::Ended);
}

#[test]
fn models_and_requests_are_named() {
    let v = models("m");
    assert_eq!(v["data"][0]["id"], json("\"m\""));
    assert_eq!(v["data"][0]["max_model_len"], json("32768"));
    assert_eq!(request_name(17), "mock-http-17");
}

fn configured(args: &[&str]) -> Result<Config, String> {
    let args: Vec<String> = args.iter().map(|s| s.to_string()).collect();
    let numeric: Vec<bool> = args.iter().map(|s| s.parse::<f64>().is_ok()).collect();
    Config::from_args(&args, &numeric)
}

#[test]
fn arguments_set_fields_and_errors_are_told() {
    let c = configured(&["--http-base-port", "7000", "--http-count", "2", "--model", "x"]).unwrap();
    assert_eq!((c.http_base_port, c.http_count, c.model_id.as_str()), (7000, 2, "x"));
    assert!(!c.sim && !c.realistic);
    let told = |args: &[&str]| configured(args).err().unwrap();
    assert!(told(&["--http-base-port", "70000"]).contains("--http-base-port"));
    assert!(told(&["--http-base-port"]).contains("--http-base-port"));
    assert!(configured(&["--no-such-flag", "1"]).is_err());
    assert!(configured(&["--http-count", "1", "--http-base-port", "1", "--engine", "sim"]).unwrap().sim);
    assert_eq!(told(&["--engine", "other"]), "--engine must be canned|realistic|sim, got other");
    assert_eq!(
        told(&["--grpc-count", "1", "--grpc-base-port", "0"]),
        "--grpc-base-port is required when --grpc-count > 0"
    );
    assert!(told(&["--help"]).contains("--prefill-tps"));
}

#[test]
fn loads_are_told() {
    let rates = Rates {
        token_usage: Value::from(0.5),
        gen_throughput: Value::from(2.5),
        cache_hit_rate: Value::from(0.25),
        utilization: Value::from(0.5),
    };
    let mut load = no_load();
    load.num_running_reqs = 2;
    load.num_waiting_reqs = 3;
    load.num_waiting_uncached_tokens = -4;
    let v = loads(&load, rates);
    assert_eq!(v["dp_rank_count"], json("1"));
    let first = &v["loads"][0];
    assert_eq!(first["num_total_reqs"], json("5"));
    assert_eq!(first["num_waiting_uncached_tokens"], json("-4"));
    assert_eq!(first["max_total_num_tokens"], json("1000000"));
    assert_eq!(first["token_usage"], Value::from(0.5));
    assert_eq!(first.as_object().unwrap().len(), 12);
}
