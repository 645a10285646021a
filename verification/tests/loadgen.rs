use radix_index::loadgen::report::summarize;
use radix_index::loadgen::report::RequestRecord;
use radix_index::loadgen::session::build_body;
use radix_index::loadgen::session::read_response;
use radix_index::loadgen::session::routing_key;
use radix_index::loadgen::session::Arrival;
use radix_index::loadgen::session::Draws;
use radix_index::loadgen::session::Ingress;
use radix_index::loadgen::session::LoadArgs;
use radix_index::loadgen::session::Session;
use radix_index::loadgen::session::Tally;
use radix_index::loadgen::session::Timing;
use radix_index::loadgen::session::Turn2Ingress;
use radix_index::loadgen::sse::SseReader;
use radix_index::mock::http::parse_body;
use serde_json::Value;

fn args() -> LoadArgs {
    LoadArgs {
        smg_urls: vec!["http://a".to_string(), "http://b".to_string()],
        ingress: Ingress::Hash,
        turn2_ingress: Turn2Ingress::Same,
        stream: true,
        tokens_hint: true,
        image_count: 2,
        image_placeholder_id: 9,
        image_placeholder_run: 3,
    }
}

fn draws() -> Draws {
    Draws {
        key_hash: 5,
        prompt_len: 12,
        first_max_new: 4,
        first_random: 0,
        has_second: true,
        second_max_new: 6,
        second_random: 0,
    }
}

fn session(a: &LoadArgs) -> Session {
    let d = draws();
    let pad = a.pad_len(2, d.prompt_len);
    assert_eq!(pad, 4);
    Session::plan(a, 3, routing_key(None, 3), vec![1, 2], vec![7; pad], &d)
}

#[test]
fn keys_are_shared_or_of_a_session() {
    assert_eq!(routing_key(Some(31), 3), "shared-31");
    assert_eq!(routing_key(None, 3), "sess-3");
}

#[test]
fn first_turns_have_the_drawn_length() {
    let s = session(&args());
    assert_eq!(s.first.input_ids, vec![1, 2, 9, 9, 9, 9, 9, 9, 7, 7, 7, 7]);
    assert_eq!((s.first.turn, s.first.smg, s.first.max_new), (1, 1, 4));
    assert_eq!(args().pad_len(2, 5), 0);
}

#[test]
fn second_turns_extend_the_first() {
    let t = session(&args()).second(Some(vec![40, 41]), vec![50]).expect("a second turn");
    assert_eq!(t.input_ids[12..], [40, 41, 50]);
    assert_eq!((t.turn, t.smg, t.max_new, t.key.as_str()), (2, 1, 6, "sess-3"));
    assert!(session(&args()).second(None, vec![50]).is_none());
    let mut a = args();
    a.turn2_ingress = Turn2Ingress::Random;
    a.ingress = Ingress::Random;
    let s = session(&a);
    assert_eq!((s.first.smg, s.second_smg), (0, 0));
}

#[test]
fn bodies_are_read_back_as_written() {
    let images = vec!["aa".to_string(), "bb".to_string()];
    let body = build_body(&vec![1, 20, 300], &images, 8, true);
    assert_eq!(
        body,
        "{\"input_ids\":[1,20,300],\"image_data\":[\"aa\",\"bb\"],\"sampling_params\":{\"max_new_tokens\":8},\"stream\":true}"
    );
    let b = parse_body(body.as_bytes(), 1);
    assert_eq!((b.input_ids, b.images, b.max_new, b.stream), (vec![1, 20, 300], images, 8, true));
    assert_eq!(
        build_body(&vec![], &vec![], 0, false),
        "{\"input_ids\":[],\"sampling_params\":{\"max_new_tokens\":0},\"stream\":false}"
    );
}

#[test]
fn hints_are_capped() {
    let a = args();
    let mut s = session(&a);
    let out = s.first.prepare(&a, &vec![]);
    assert_eq!(out.url, "http://b/generate");
    assert_eq!(out.hint.as_deref(), Some("1,2,9,9,9,9,9,9,7,7,7,7"));
    s.first.input_ids = vec![1; 600];
    let hint = s.first.prepare(&a, &vec![]).hint.unwrap();
    assert_eq!(hint.split(',').count(), 512);
    let mut a = args();
    a.tokens_hint = false;
    assert!(s.first.prepare(&a, &vec![]).hint.is_none());
}

fn timing() -> Timing {
    Timing { elapsed_ms: 10, start_ms: 100 }
}

#[test]
fn settled_turns_are_recorded() {
    let s = session(&args());
    let mut tally = Tally { sent: 0, done: 0, errors: 0 };
    tally.send();
    let v = read_response(
        br#"{"output_ids":[5,-1,6],"meta_info":{"worker_port":9100,"cached_tokens":4,"completion_tokens":2}}"#,
    );
    let whole = Arrival::Whole { status: 200, response: v };
    let (r, output) = s.first.settle(&whole, &timing(), &mut tally);
    assert_eq!(output, Some(vec![5, 6]));
    assert_eq!((r.worker_port, r.cached_tokens, r.completion_tokens), (Some(9100), Some(4), Some(2)));
    assert_eq!((r.prompt_tokens, r.status, r.start_ms), (12, 200, 100));
    let empty = Arrival::Whole { status: 204, response: None };
    assert_eq!(s.first.settle(&empty, &timing(), &mut tally).1, Some(vec![]));
    for a in [Arrival::Unreachable, Arrival::Broken, Arrival::Refused { status: 503 }] {
        let (r, output) = s.first.settle(&a, &timing(), &mut tally);
        assert!(output.is_none());
        assert!(!r.is_ok());
    }
    assert_eq!((tally.sent, tally.done, tally.errors), (1, 5, 3));
}

#[test]
fn frames_may_span_chunks() {
    let bytes = b": x\r\ndata: {\"a\":1}\r\n\ndata:nope\ndata:{\"a\":2}\ndata: [DONE]\ndata: {\"a\":3}\n";
    for cut in 0..bytes.len() {
        let mut r = SseReader::new();
        r.feed(&bytes[..cut]);
        r.feed(&bytes[cut..]);
        assert!(r.seen() && r.ended());
        let last: Value = r.into_last().unwrap();
        assert_eq!(last.to_string(), "{\"a\":2}");
    }
    let mut r = SseReader::new();
    r.feed(b"data: [DONE]\n");
    assert!(!r.seen() && r.ended());
    assert!(r.into_last().is_none());
}

fn record(turn: u8, session: u64, port: Option<u64>, status: u16, start_ms: u64) -> RequestRecord {
    RequestRecord {
        turn,
        session,
        key: "k".to_string(),
        smg: (session % 3) as usize,
        worker_port: port,
        prompt_tokens: 10,
        cached_tokens: Some(3),
        completion_tokens: None,
        max_new: 1,
        elapsed_ms: 5,
        status,
        start_ms,
    }
}

#[test]
fn runs_are_summed_up() {
    let records = vec![
        record(1, 1, Some(70), 200, 0),
        record(1, 2, Some(70), 200, 3000),
        record(2, 1, Some(70), 200, 3000),
        record(2, 2, Some(71), 200, 3000),
        record(1, 3, Some(71), 200, 3000),
        record(1, 4, None, 500, 3000),
        record(1, 5, None, 0, 3000),
        record(2, 9, Some(70), 200, 3000),
    ];
    let s = summarize(&records, 1000, 1, 2);
    assert_eq!(s.requests, 8);
    assert_eq!(s.errors, vec![(0, 1), (500, 1)]);
    assert_eq!(s.measured, vec![1, 2, 3, 4, 5, 6, 7]);
    assert_eq!(s.ok, vec![1, 2, 3, 4, 7]);
    assert_eq!((s.turn1.count, s.turn1.ok.len()), (4, 2));
    assert_eq!((s.turn2.count, s.turn2.ok.len()), (3, 3));
    assert_eq!(s.turn1.cached, vec![(3, 10), (3, 10)]);
    assert_eq!(s.reunions, vec![true, false]);
    assert_eq!(s.worker_counts, vec![(70, 1), (71, 1)]);
    assert_eq!((s.first_turns, s.busiest()), (2, Some(1)));
    assert_eq!(s.per_smg, vec![2, 3]);
    assert_eq!(
        s.totals(5).to_string(),
        "{\"errors\":{\"0\":1,\"500\":1},\"requests\":8,\"sessions\":5}"
    );
    let urls = vec!["u".to_string(), "v".to_string()];
    assert_eq!(
        s.per_smg_requests(&urls).to_string(),
        "[{\"requests\":2,\"url\":\"u\"},{\"requests\":3,\"url\":\"v\"}]"
    );
}

#[test]
fn empty_runs_have_no_busiest_worker() {
    let s = summarize(&vec![], 0, u64::MAX, 1);
    assert_eq!(s.busiest(), None);
    assert_eq!(s.per_smg, vec![0]);
}

#[test]
fn records_are_lines_of_json() {
    let r = record(2, 1, Some(70), 200, 0);
    let v = r.to_json(Value::Null, Value::from(1.5));
    assert_eq!(v["turn"], Value::from(2));
    assert_eq!(v["ttft_ms"], Value::Null);
    assert_eq!(v["e2e_ms"], Value::from(1.5));
    assert_eq!(v["completion_tokens"], Value::Null);
    assert_eq!(v["worker_port"], Value::from(70));
    assert_eq!(v.as_object().unwrap().len(), 13);
}

#[test]
fn warmups_are_in_no_statistic() {
    let run = |early: RequestRecord| {
        let records = vec![early, record(1, 2, Some(70), 200, 3000)];
        summarize(&records, 1000, 1, 2)
    };
    let a = run(record(2, 7, Some(99), 200, 0));
    let b = run(record(2, 8, None, 500, 10));
    assert_eq!((a.measured.clone(), a.ok.clone()), (b.measured.clone(), b.ok.clone()));
    assert_eq!((a.turn2.count, b.turn2.count), (0, 0));
    assert_eq!(a.worker_counts, b.worker_counts);
    assert_eq!((a.errors.len(), b.errors.len()), (0, 1));
    assert_eq!((a.requests, b.requests), (2, 2));
}

#[test]
fn leaving_out_a_warmup_changes_totals_only() {
    let mut records = vec![
        record(1, 7, Some(99), 200, 0),
        record(1, 2, Some(70), 200, 3000),
        record(2, 2, Some(71), 500, 3000),
    ];
    let with = summarize(&records, 1000, 1, 2);
    records.remove(0);
    let without = summarize(&records, 1000, 1, 2);
    assert_eq!((with.requests, without.requests), (3, 2));
    assert_eq!((with.measured, without.measured), (vec![1, 2], vec![0, 1]));
    assert_eq!((with.ok, without.ok), (vec![1], vec![0]));
    assert_eq!(with.errors, without.errors);
    assert_eq!(with.reunions, without.reunions);
    assert_eq!(with.worker_counts, without.worker_counts);
    assert_eq!(with.turn1.cached, without.turn1.cached);
    assert_eq!((with.per_smg, without.per_smg), (vec![0, 1], vec![0, 0]));
}
