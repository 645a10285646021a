use radix_index::inference::abort_outcome;
use radix_index::inference::abort_text;
use radix_index::inference::from_sglang_response;
use radix_index::inference::from_tokenspeed_request;
use radix_index::inference::from_tokenspeed_response;
use radix_index::inference::into_sglang_request;
use radix_index::inference::into_tokenspeed_request;
use radix_index::inference::into_tokenspeed_response;
use radix_index::inference::sglang;
use radix_index::inference::tokenspeed;
use radix_index::inference::worker;
use radix_index::inference::Bits32;
use radix_index::inference::SglangStream;
use radix_index::status::Code;
use radix_index::status::Status;
use std::collections::HashMap;

fn bits(x: f32) -> Option<Bits32> {
    Some(Bits32(x.to_bits()))
}

#[test]
fn text_request_round_trips_without_engine_fields() {
    let request = tokenspeed::GenerateRequest {
        request_id: "req-1".to_string(),
        tokenized: Some(tokenspeed::TokenizedInput {
            input_ids: vec![1, 2, 3],
            original_text: "hello".to_string(),
        }),
        sampling_params: Some(tokenspeed::SamplingParams {
            temperature: bits(0.25),
            max_new_tokens: Some(8),
            stop: vec!["done".to_string()],
            ..Default::default()
        }),
        stream: true,
        ..Default::default()
    };

    let worker = from_tokenspeed_request(request.clone()).expect("portable request");
    assert_eq!(into_tokenspeed_request(worker), request);
}

#[test]
fn disaggregated_request_is_rejected() {
    let request = tokenspeed::GenerateRequest {
        kv_bootstrap_info: Some(Vec::new()),
        ..Default::default()
    };
    let status = from_tokenspeed_request(request).expect_err("unsupported extension");
    assert_eq!(status.code, Code::Unimplemented);
    let request =
        tokenspeed::GenerateRequest { mm_inputs: Some(Vec::new()), ..Default::default() };
    let status = from_tokenspeed_request(request).expect_err("unsupported extension");
    assert_eq!(status.code, Code::Unimplemented);
}

fn native() -> worker::GenerateRequest {
    worker::GenerateRequest {
        request_id: "native-1".to_string(),
        tokenized: Some(worker::TokenizedInput {
            input_ids: vec![10, 20],
            original_text: "ignored by tokenized native RPC".to_string(),
        }),
        sampling_params: Some(worker::SamplingParams {
            temperature: bits(0.2),
            max_new_tokens: Some(16),
            stop_token_ids: vec![99],
            sampling_seed: Some(7),
            ..Default::default()
        }),
        stream: true,
        data_parallel_rank: Some(2),
        ..Default::default()
    }
}

#[test]
fn sglang_native_request_preserves_portable_arguments() {
    let native = into_sglang_request(native()).expect("native request");
    assert_eq!(native.input_ids, vec![10, 20]);
    assert_eq!(native.rid.as_deref(), Some("native-1"));
    assert_eq!(native.routed_dp_rank, Some(2));
    let sampling = native.sampling_params.expect("sampling params");
    assert_eq!(sampling.temperature, bits(0.2));
    assert_eq!(sampling.max_new_tokens, Some(16));
    assert_eq!(sampling.stop_token_ids, vec![99]);
    assert_eq!(sampling.seed, Some(7));
}

#[test]
fn sglang_requests_that_do_not_fit_are_rejected() {
    let mut r = native();
    r.return_logprob = true;
    assert!(into_sglang_request(r).is_err());
    let mut r = native();
    r.tokenized = None;
    assert!(into_sglang_request(r).unwrap().input_ids.is_empty());
    let mut r = native();
    if let Some(t) = &mut r.tokenized {
        t.input_ids = vec![u32::MAX];
    }
    assert!(into_sglang_request(r).is_err());
    let mut r = native();
    if let Some(s) = &mut r.sampling_params {
        s.max_new_tokens = Some(u32::MAX);
    }
    assert!(into_sglang_request(r).is_err());
}

#[test]
fn sglang_native_finish_metadata_maps_to_worker_contract() {
    let response = from_sglang_response(
        "native-2",
        sglang::GenerateResponse {
            output_ids: vec![42, 43],
            meta_info: vec![
                ("prompt_tokens".to_string(), "3".to_string()),
                ("completion_tokens".to_string(), "2".to_string()),
                (
                    "finish_reason".to_string(),
                    r#"{"type":"stop","matched":43}"#.to_string(),
                ),
            ],
            finished: true,
        },
        &mut HashMap::new(),
    )
    .expect("worker response");

    let Some(worker::GenerateEvent::Complete(complete)) = response.response else {
        panic!("expected completion")
    };
    assert_eq!(complete.output_ids, vec![42, 43]);
    assert_eq!(complete.prompt_tokens, 3);
    assert_eq!(complete.completion_tokens, 2);
    assert_eq!(complete.finish_reason, "stop");
    assert_eq!(complete.matched_stop, Some(worker::MatchedStop::MatchedTokenId(43)));
}

fn finished(reason: &str) -> worker::GenerateComplete {
    let response = from_sglang_response(
        "r",
        sglang::GenerateResponse {
            output_ids: vec![1],
            meta_info: vec![("finish_reason".to_string(), reason.to_string())],
            finished: true,
        },
        &mut HashMap::new(),
    )
    .unwrap();
    match response.response {
        Some(worker::GenerateEvent::Complete(c)) => c,
        _ => panic!("expected completion"),
    }
}

#[test]
fn finish_reasons_may_be_texts_or_objects() {
    assert_eq!(finished("\"length\"").finish_reason, "length");
    let c = finished(r#"{"type":"stop","matched":"END"}"#);
    assert_eq!(c.matched_stop, Some(worker::MatchedStop::MatchedStopStr("END".to_string())));
}

#[test]
fn sglang_native_stream_is_converted_from_cumulative_to_delta_tokens() {
    let mut emitted_by_index = HashMap::new();
    let first = from_sglang_response(
        "native-stream",
        sglang::GenerateResponse { output_ids: vec![10], meta_info: vec![], finished: false },
        &mut emitted_by_index,
    )
    .expect("first chunk");
    let second = from_sglang_response(
        "native-stream",
        sglang::GenerateResponse { output_ids: vec![10, 20], meta_info: vec![], finished: false },
        &mut emitted_by_index,
    )
    .expect("second chunk");

    let Some(worker::GenerateEvent::Chunk(first)) = first.response else {
        panic!("expected first chunk")
    };
    let Some(worker::GenerateEvent::Chunk(second)) = second.response else {
        panic!("expected second chunk")
    };
    assert_eq!(first.token_ids, vec![10]);
    assert_eq!(second.token_ids, vec![20]);
}

#[test]
fn negative_tokens_are_an_error() {
    let r = from_sglang_response(
        "r",
        sglang::GenerateResponse { output_ids: vec![-1], meta_info: vec![], finished: false },
        &mut HashMap::new(),
    );
    assert!(r.is_err());
}

#[test]
fn responses_round_trip() {
    let response = worker::GenerateResponse {
        request_id: "r".to_string(),
        response: Some(worker::GenerateEvent::Chunk(worker::GenerateStreamChunk {
            token_ids: vec![4],
            prompt_tokens: 1,
            completion_tokens: 2,
            cached_tokens: 3,
            output_logprobs: None,
            index: 5,
        })),
    };
    let there = into_tokenspeed_response(response.clone());
    assert_eq!(from_tokenspeed_response(there), response);
}

#[test]
fn aborts_tell_why_they_failed() {
    assert_eq!(abort_text(true), "");
    assert_eq!(abort_text(false), "SGLang rejected the abort request");
    assert!(abort_outcome(true, String::new()).is_ok());
    let e = abort_outcome(false, "no".to_string()).unwrap_err();
    assert_eq!((e.code, e.message.as_str()), (Code::FailedPrecondition, "no"));
}

#[test]
fn streams_pass_errors_on() {
    let mut s = SglangStream::new("r");
    let response = |ids: Vec<i32>| {
        Ok(sglang::GenerateResponse { output_ids: ids, meta_info: vec![], finished: false })
    };
    assert!(s.pass(response(vec![1, 2])).is_ok());
    let gone = Status::new(Code::Unavailable, "gone");
    assert_eq!(s.pass(Err(gone.clone())), Err(gone));
    let shorter = s.pass(response(vec![1])).unwrap_err();
    assert_eq!(shorter.code, Code::Internal);
    assert_eq!(s.emitted_by_index.get(&0), Some(&2));
}

#[test]
fn numbers_out_of_range_are_named() {
    let refused = |change: fn(&mut worker::SamplingParams)| {
        let mut r = native();
        if let Some(s) = &mut r.sampling_params {
            change(s);
        }
        into_sglang_request(r).unwrap_err()
    };
    let cases: [(fn(&mut worker::SamplingParams), &str); 5] = [
        (|s| s.max_new_tokens = Some(u32::MAX), "max_new_tokens"),
        (|s| s.min_new_tokens = u32::MAX, "min_new_tokens"),
        (|s| s.stop_token_ids = vec![u32::MAX], "stop token id"),
        (|s| s.n = u32::MAX, "n"),
        (|s| s.sampling_seed = Some(u64::MAX), "sampling_seed"),
    ];
    for (change, field) in cases {
        let e = refused(change);
        assert_eq!(e.code, Code::InvalidArgument);
        assert!(e.message.contains(field), "{}", e.message);
    }
    let e = refused(|s| s.logit_bias = vec![("1".to_string(), Bits32(0))]);
    assert_eq!(e.code, Code::InvalidArgument);
    let e = refused(|s| s.engine_parameters = Some(vec![]));
    assert_eq!(e.code, Code::InvalidArgument);
    let mut r = native();
    r.top_logprobs_num = 1;
    assert_eq!(into_sglang_request(r).unwrap_err().code, Code::Unimplemented);
}

fn prompt_tokens(number: &str) -> u32 {
    let response = from_sglang_response(
        "r",
        sglang::GenerateResponse {
            output_ids: vec![1],
            meta_info: vec![
                ("prompt_tokens".to_string(), number.to_string()),
                ("finish_reason".to_string(), "\"stop\"".to_string()),
            ],
            finished: true,
        },
        &mut HashMap::new(),
    )
    .unwrap();
    match response.response {
        Some(worker::GenerateEvent::Complete(c)) => c.prompt_tokens,
        _ => panic!("expected completion"),
    }
}

#[test]
fn counts_are_plain_numbers() {
    assert_eq!(prompt_tokens(" \t\n\r12 "), 12);
    assert_eq!(prompt_tokens("0"), 0);
    assert_eq!(prompt_tokens("4294967295"), u32::MAX);
    for other in ["4294967296", "007", "+7", "-7", "-0", "7.0", "7e0", "", "1 2", "\u{a0}7", "x"] {
        assert_eq!(prompt_tokens(other), 0, "{other:?}");
    }
}
