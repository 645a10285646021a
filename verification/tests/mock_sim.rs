use radix_index::mock::grpc::GenEvent;
use radix_index::mock::grpc::GenerateFold;
use radix_index::mock::grpc::LoadSource;
use radix_index::mock::grpc::MockScheduler;
use radix_index::mock::grpc::Mode;
use radix_index::mock::grpc::Plan;
use radix_index::mock::grpc::SimAction;
use radix_index::mock::grpc::SimGen;
use radix_index::mock::hash::chain_hashes;
use radix_index::mock::hash::fnv64;
use radix_index::mock::hash::splitmix64;
use radix_index::mock::http::native_response;
use radix_index::mock::http::SimSse;
use radix_index::mock::http::SseFrame;
use radix_index::mock::kv::KvIndex;
use radix_index::mock::lru::BlockLru;
use radix_index::mock::sim::Admitted;
use radix_index::mock::sim::SimParams;
use radix_index::mock::sim::SimWorker;

fn params(block: usize) -> SimParams {
    SimParams {
        max_running: 8,
        kv_capacity_tokens: 100_000,
        block_size: block,
        ..SimParams::default()
    }
}

/// A request that queues and gets its slot at once.
fn start(w: &mut SimWorker, ids: Vec<u32>, max_new: u32) -> Admitted {
    w.enqueue(ids.len());
    w.admit_request(ids, max_new)
}

#[test]
fn repeat_prompt_hits_cache() {
    let mut w = SimWorker::new(params(4), 9100);
    let ids: Vec<u32> = (0..64).collect();
    let mut a = start(&mut w, ids.clone(), 4);
    assert_eq!(a.cached_tokens, 0);
    a.finish_prefill(&mut w);
    a.complete(&mut w);
    let b = start(&mut w, ids, 4);
    assert_eq!(b.cached_tokens, 64, "identical prompt must fully hit");
}

#[test]
fn cache_not_published_before_prefill_completes() {
    let mut w = SimWorker::new(params(4), 9100);
    let ids: Vec<u32> = (0..64).collect();
    let mut a = start(&mut w, ids.clone(), 4);
    let b = start(&mut w, ids.clone(), 4);
    assert_eq!(b.cached_tokens, 0, "concurrent cold request must miss");
    b.complete(&mut w);

    a.finish_prefill(&mut w);
    let c = start(&mut w, ids.clone(), 4);
    assert_eq!(c.cached_tokens, 64, "after prefill the prompt is cached");
    c.complete(&mut w);
    a.complete(&mut w);

    let novel: Vec<u32> = (5000..5064).collect();
    let aborted = start(&mut w, novel.clone(), 4);
    aborted.complete(&mut w);
    let d = start(&mut w, novel, 4);
    assert_eq!(d.cached_tokens, 0, "aborted prefill must not publish KV");
}

#[test]
fn active_prompt_kv_stays_counted_and_pinned_until_completion() {
    let mut w = SimWorker::new(params(4), 9100);
    let mut a = start(&mut w, (0..64).collect(), 8);
    assert_eq!(w.load().num_used_tokens, 72);
    assert_eq!(w.cache_tokens(), 0);
    assert_eq!(w.pinned_tokens(), 0);
    a.finish_prefill(&mut w);
    assert_eq!(
        w.load().num_used_tokens,
        72,
        "the prompt keeps counting while decode depends on it"
    );
    assert_eq!(w.pinned_tokens(), 64, "prompt pinned, matchable");
    assert_eq!(w.cache_tokens(), 0, "nothing evictable yet");
    a.complete(&mut w);
    assert_eq!(w.load().num_used_tokens, 0);
    assert_eq!(w.pinned_tokens(), 0);
    assert_eq!(w.cache_tokens(), 72, "prompt \u{2295} output evictable after completion");
    assert_eq!(w.load().num_running_reqs, 0);
}

#[test]
fn pinned_blocks_survive_eviction_pressure() {
    let mut w = SimWorker::new(SimParams { kv_capacity_tokens: 128, ..params(4) }, 9100);
    let ids: Vec<u32> = (0..64).collect();
    let mut active = start(&mut w, ids.clone(), 8);
    active.finish_prefill(&mut w);
    for start_id in (1000..3000u32).step_by(100) {
        let mut churn = start(&mut w, (start_id..start_id + 32).collect(), 4);
        churn.finish_prefill(&mut w);
        churn.complete(&mut w);
    }
    assert_eq!(w.pinned_tokens(), 64, "active prompt not evicted");
    let hit = start(&mut w, ids, 4);
    assert_eq!(hit.cached_tokens, 64, "pinned prompt stays matchable");
}

#[test]
fn output_ids_are_deterministic_from_content() {
    let mut w1 = SimWorker::new(params(4), 9100);
    let mut w2 = SimWorker::new(params(4), 9200);
    let ids: Vec<u32> = (0..64).collect();
    let other = start(&mut w1, (500..564).collect(), 8);
    let a = start(&mut w1, ids.clone(), 8);
    let b = start(&mut w2, ids.clone(), 8);
    assert_eq!(a.output_ids, b.output_ids, "content-determined outputs");
    other.complete(&mut w1);
    let c = start(&mut w1, (2000..2064).collect(), 8);
    assert_ne!(a.output_ids, c.output_ids, "different content diverges");
}

#[test]
fn turn_two_hits_turn_one_prompt_and_output() {
    let mut w = SimWorker::new(params(4), 9100);
    let t1: Vec<u32> = (0..64).collect();
    let mut a = start(&mut w, t1.clone(), 8);
    let output = a.output_ids.clone();
    a.finish_prefill(&mut w);
    a.complete(&mut w);
    let mut t2 = t1;
    t2.extend_from_slice(&output);
    t2.extend(1000..1040u32);
    let b = start(&mut w, t2, 4);
    assert_eq!(b.cached_tokens, 72, "turn 2 must hit turn 1 prompt+output");
}

#[test]
fn image_identity_changes_effective_sequence() {
    let p = params(4);
    let placeholder = p.image_placeholder_id;
    let mut w = SimWorker::new(p, 9100);
    let mut ids: Vec<u32> = (0..16).collect();
    ids.extend(std::iter::repeat(placeholder).take(8));
    ids.extend(100..116u32);

    let eff_a = w.effective_sequence(&ids, &["imagebytesA"]);
    let eff_b = w.effective_sequence(&ids, &["imagebytesB"]);
    assert_eq!(eff_a.len(), ids.len());
    assert_ne!(eff_a, eff_b, "different image bytes must change the cached sequence");
    assert_eq!(eff_a[..16], ids[..16], "text before the image is untouched");

    let mut a = start(&mut w, eff_a.clone(), 2);
    a.finish_prefill(&mut w);
    a.complete(&mut w);
    let b = start(&mut w, eff_b, 2);
    assert_eq!(b.cached_tokens, 16, "hit stops at the image boundary");
    let c = start(&mut w, eff_a, 2);
    assert_eq!(c.cached_tokens, 40, "same image hits through it");
}

#[test]
fn admission_queues_beyond_max_running_and_reports_waiting() {
    let mut w = SimWorker::new(SimParams { max_running: 1, ..params(4) }, 9100);
    assert_eq!(w.width(), 1);
    let first = start(&mut w, (0..8).collect(), 4);
    w.enqueue(8);
    let load = w.load();
    assert_eq!(load.num_running_reqs, 1);
    assert_eq!(load.num_waiting_reqs, 1);
    assert!(load.num_waiting_uncached_tokens > 0);
    first.complete(&mut w);
    let second = w.admit_request((100..108).collect(), 4);
    assert_eq!(w.load().num_waiting_reqs, 0);
    second.complete(&mut w);
    assert_eq!(w.load().num_running_reqs, 0);
}

#[test]
fn kv_accounting_and_eviction_stay_bounded() {
    let mut w = SimWorker::new(SimParams { kv_capacity_tokens: 256, ..params(4) }, 9100);
    for start_id in (0..2000u32).step_by(100) {
        let mut a = start(&mut w, (start_id..start_id + 64).collect(), 4);
        a.finish_prefill(&mut w);
        a.complete(&mut w);
    }
    assert!(w.cache_tokens() <= 256, "cache must evict to capacity");
    let load = w.load();
    assert_eq!(load.num_used_tokens, 0, "nothing running after completion");
    assert!(load.num_used_tokens <= load.max_total_num_tokens);
}

#[test]
fn hashes_have_their_known_values() {
    assert_eq!(fnv64(b""), 0xcbf2_9ce4_8422_2325);
    assert_eq!(fnv64(b"a"), 0xaf63_dc4c_8601_ec8c);
    assert_eq!(splitmix64(0), 0xe220_a839_7b1d_cdaf);
    let short = chain_hashes(&[1, 2, 3, 4], 2);
    let long = chain_hashes(&[1, 2, 3, 4, 5, 6, 7], 2);
    assert_eq!(short.len(), 2);
    assert_eq!(long.len(), 3);
    assert_eq!(long[..2], short[..]);
}

#[test]
fn caches_evict_what_was_not_used() {
    let mut lru = BlockLru::new();
    lru.touch(1);
    lru.touch(2);
    lru.touch(3);
    lru.touch(1);
    lru.evict_to(8, 4);
    assert!(lru.contains(1));
    assert!(lru.contains(3));
    assert!(!lru.contains(2));
    assert_eq!(lru.tokens(4), 8);
}

#[test]
fn pins_are_counted_per_request() {
    let mut kv = KvIndex::new();
    kv.pin(&[7, 8]);
    kv.pin(&[7]);
    assert_eq!(kv.pinned_tokens(4), 8);
    kv.unpin(&[7, 8]);
    assert_eq!(kv.pinned_tokens(4), 4);
    assert_eq!(kv.evictable_tokens(4), 4);
    assert_eq!(kv.match_blocks(&[7, 8, 9]), 2);
    kv.evict_to(0, 4);
    assert_eq!(kv.match_blocks(&[7, 8, 9]), 1);
}

#[test]
fn generations_send_a_first_chunk_and_a_completion() {
    let mut w = SimWorker::new(params(4), 9100);
    w.enqueue(8);
    let state = SimGen::Admit { request_id: "r".into(), input_ids: (0..8).collect(), max_new: 3 };
    let (action, state) = state.advance(&mut w);
    assert!(matches!(action, SimAction::AwaitPrefill { uncached: 8 }));
    let (action, state) = state.advance(&mut w);
    assert!(matches!(action, SimAction::SendAndDecode { tokens: 3, .. }));
    let (action, state) = state.advance(&mut w);
    assert!(matches!(action, SimAction::SendLast(_)));
    let (action, _) = state.advance(&mut w);
    assert!(matches!(action, SimAction::End));
    assert_eq!(w.load().num_running_reqs, 0);
}

#[test]
fn abandoned_generations_release_their_slot() {
    let mut w = SimWorker::new(params(4), 9100);
    w.enqueue(8);
    let state = SimGen::Admit { request_id: "r".into(), input_ids: (0..8).collect(), max_new: 3 };
    let (_, state) = state.advance(&mut w);
    assert_eq!(w.load().num_running_reqs, 1);
    state.abandon(&mut w);
    assert_eq!(w.load().num_running_reqs, 0);
    assert_eq!(w.cache_tokens(), 0);
}

#[test]
fn streams_end_with_a_mark() {
    let mut w = SimWorker::new(params(4), 9100);
    let adm = start(&mut w, (0..8).collect(), 2);
    let whole = native_response(&adm, true).to_string();
    let (frame, state) = SimSse::Ttft(adm).advance(&mut w);
    assert!(matches!(frame, SseFrame::Data(s) if s.contains("\"completion_tokens\":0")));
    let (frame, state) = state.advance(&mut w);
    assert!(matches!(frame, SseFrame::Data(s) if s == whole));
    let (frame, state) = state.advance(&mut w);
    assert!(matches!(frame, SseFrame::Data(s) if s == "[DONE]"));
    let (frame, _) = state.advance(&mut w);
    assert!(matches!(frame, SseFrame::End));
    assert_eq!(w.load().num_running_reqs, 0);
}

#[test]
fn schedulers_plan_by_their_mode() {
    let request = || radix_index::inference::tokenspeed::GenerateRequest {
        request_id: "r".into(),
        ..Default::default()
    };
    let mut s =
        MockScheduler { mode: Mode::Canned, output_tokens: 2, gen_delay_ms: 5, kv_events: true };
    match s.generate(request()) {
        Plan::Canned { delay_ms, responses } => {
            assert_eq!(delay_ms, 5);
            assert_eq!(responses.len(), 3);
        }
        _ => panic!("expected a canned plan"),
    }
    assert!(s.subscribe_kv_events().is_err());
    s.mode = Mode::Sim;
    assert!(matches!(s.generate(request()), Plan::Sim(_)));
    assert!(s.subscribe_kv_events().is_ok());
    s.mode = Mode::Realistic;
    assert!(matches!(s.generate(request()), Plan::Realistic { max_new: 2, .. }));
}

#[test]
fn folds_collect_tokens() {
    let mut fold =
        GenerateFold { output_ids: vec![], stream_chunks: false, request_id: "r".into() };
    let token = GenEvent::Token { token_id: 5, prompt_tokens: 1, cached_tokens: 0 };
    assert!(fold.step(token).is_none());
    let done = GenEvent::Done {
        finish_reason: "stop".into(),
        prompt_total: 1,
        completion_tokens: 1,
        cached_total: 0,
    };
    assert_eq!(fold.output_ids, vec![5]);
    match fold.step(done).and_then(|r| r.response) {
        Some(radix_index::inference::tokenspeed::GenerateEvent::Complete(c)) => {
            assert_eq!(c.output_ids, vec![5]);
        }
        _ => panic!("expected a completion"),
    }
    assert!(fold.output_ids.is_empty());
}

#[test]
fn schedulers_tell_model_and_load() {
    let s =
        MockScheduler { mode: Mode::Canned, output_tokens: 2, gen_delay_ms: 0, kv_events: false };
    let m = s.get_model_info("m", "t");
    assert_eq!((m.model_path.as_str(), m.tokenizer_path.as_str()), ("m", "t"));
    assert_eq!((m.vocab_size, m.eos_token_ids), (32000, vec![2]));
    assert_eq!(s.get_loads(&LoadSource::Nothing).loads[0].max_total_num_tokens, 1_000_000);
    let mut w = SimWorker::new(params(4), 9100);
    let _a = start(&mut w, (0..8).collect(), 4);
    let loads = s.get_loads(&LoadSource::Sim(w.load()));
    assert_eq!((loads.loads[0].num_total_reqs, loads.loads[0].num_used_tokens), (1, 12));
    assert_eq!(s.unsupported().message, "mock-worker");
    let info = s.get_server_info();
    assert_eq!((info.max_total_num_tokens, info.tokenspeed_version.as_str()), (1_000_000, "mock"));
    assert!(s.health_check().0 && s.abort().0);
}
