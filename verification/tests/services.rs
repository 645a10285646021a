use radix_index::bench::hot_contents;
use radix_index::bench::parse_flag;
use radix_index::bench::percentiles;
use radix_index::bench::placement_update;
use radix_index::bench::worker_url;
use radix_index::bench::Options;
use radix_index::bench::Publisher;
use radix_index::bench::Querier;
use radix_index::bench::Ranks;
use radix_index::control::parse_health_state;
use radix_index::control::startup_outcome;
use radix_index::control::BridgeConfig;
use radix_index::control::ControlServer;
use radix_index::control::Handles;
use radix_index::control::InferenceConfig;
use radix_index::control::ServerAction;
use radix_index::control::ServerArgs;
use radix_index::control::ServerEvent;
use radix_index::control::ServerState;
use radix_index::control::StopError;
use radix_index::control::Timestamp;
use radix_index::control::WaitOutcome;
use radix_index::control::WorkerControl;
use radix_index::control::WorkerHealthState;
use radix_index::gateway::detect::ConnectionMode;
use radix_index::gateway::detect::DetectConnectionModeStep;
use radix_index::gateway::detect::DetectError;
use radix_index::gateway::detect::Probe;
use radix_index::gateway::detect::Reply;
use radix_index::gateway::detect::WorkerData;
use radix_index::gateway::transport::EngineRequest;
use radix_index::gateway::transport::RuntimeType;
use radix_index::gateway::transport::StreamAction;
use radix_index::gateway::transport::StreamEvent;
use radix_index::gateway::transport::ZmqStream;
use radix_index::gateway::transport::ZmqWorkerTransport;
use radix_index::inference::worker;
use radix_index::proto::EventKind;
use radix_index::status::Code;

// ── Control ─────────────────────────────────────────────────────────────────

#[test]
fn parses_supported_health_states() {
    assert_eq!(parse_health_state("serving").unwrap(), WorkerHealthState::Serving);
    assert_eq!(parse_health_state("not_serving").unwrap(), WorkerHealthState::NotServing);
    assert_eq!(
        parse_health_state("unknown"),
        Err("unknown worker health state \"unknown\"".to_string())
    );
    assert_eq!(parse_health_state("Not-Serving").unwrap(), WorkerHealthState::NotServing);
    assert_eq!(parse_health_state("STARTING").unwrap(), WorkerHealthState::Starting);
    assert_eq!(parse_health_state("degraded").unwrap(), WorkerHealthState::Degraded);
    assert_eq!(parse_health_state("draining").unwrap(), WorkerHealthState::Draining);
}

const NOW: Timestamp = Timestamp { seconds: 12, nanos: 34 };

fn config() -> BridgeConfig {
    BridgeConfig {
        worker_id: "worker-a".to_string(),
        instance_id: "instance-a".to_string(),
        hostname: "node-a".to_string(),
        zone: String::new(),
        engine_type: "sglang".to_string(),
        engine_version: String::new(),
        engine_endpoint: "grpc://worker-a:32000".to_string(),
        model_ids: vec!["model-a".to_string()],
        features: vec!["generate".to_string()],
        max_concurrent_requests: 32,
    }
}

#[test]
fn lifecycle_health_is_served_from_rust_state() {
    let mut control = WorkerControl::new(config(), "1.0.0", NOW);
    control.set_health("starting", "warming up".to_string()).unwrap();
    let starting = control.get_health(true, NOW);
    assert_eq!(starting.state, WorkerHealthState::Starting);
    assert_eq!(starting.message, "warming up");
    assert_eq!(starting.components.len(), 1);

    control.set_health("serving", "ready".to_string()).unwrap();
    let serving = control.get_health(false, NOW);
    assert_eq!(serving.state, WorkerHealthState::Serving);
    assert!(serving.components.is_empty());

    assert!(control.set_health("unknown", "x".to_string()).is_err());
    assert_eq!(control.get_health(false, NOW).message, "ready");
}

#[test]
fn services_tell_one_engine() {
    let control = WorkerControl::new(config(), "1.0.0", NOW);
    let i = control.get_identity();
    assert_eq!(i.labels, vec![("role".to_string(), "smg-worker".to_string())]);
    assert_eq!((i.worker_id.as_str(), i.version.as_str()), ("worker-a", "1.0.0"));
    let c = control.get_capabilities();
    assert_eq!((c.api_major, c.api_minor, c.max_concurrent_requests), (1, 0, 32));
    assert_eq!(c.engines[0].features, vec!["generate".to_string()]);
    let t = control.get_topology();
    assert_eq!(t.engines[0].engine_id, "python-engine-0");
    assert_eq!(t.engines[0].endpoint, "grpc://worker-a:32000");
}

fn args() -> ServerArgs {
    ServerArgs {
        worker_id: "w".to_string(),
        engine_type: "sglang".to_string(),
        model_ids: vec![],
        engine_endpoint: "e".to_string(),
        instance_id: None,
        hostname: None,
        zone: String::new(),
        engine_version: String::new(),
        features: None,
        max_concurrent_requests: 0,
    }
}

#[test]
fn blank_arguments_are_refused() {
    assert!(args().check().is_ok());
    let mut a = args();
    a.worker_id = " \t".to_string();
    assert_eq!(a.check(), Err("worker_id must not be empty".to_string()));
    let mut a = args();
    a.engine_type = String::new();
    assert_eq!(a.check(), Err("engine_type must not be empty".to_string()));
    let mut a = args();
    a.engine_endpoint = "\u{3000}".to_string();
    assert_eq!(a.check(), Err("engine_endpoint must not be empty".to_string()));
}

#[test]
fn missing_arguments_are_filled_in() {
    let c = args().complete(0xab, "10.0.0.1");
    assert_eq!(c.instance_id, "w-00000000000000ab");
    assert_eq!(c.hostname, "10.0.0.1");
    assert_eq!(c.features, vec!["generate".to_string()]);
}

#[test]
fn nameless_instances_are_named_at_random() {
    let ok = || Ok("10.0.0.1".to_string());
    let (a, inference) = args().configure(ok(), true).unwrap();
    let (b, none) = args().configure(ok(), false).unwrap();
    assert_eq!((a.instance_id.len(), &a.instance_id[..2]), (18, "w-"));
    assert!(a.instance_id != b.instance_id);
    assert_eq!(inference.map(|i| i.engine_endpoint), Some("e".to_string()));
    assert!(none.is_none());
    let mut named = args();
    named.instance_id = Some("i".to_string());
    assert_eq!(named.configure(ok(), false).unwrap().0.instance_id, "i");
    let bad = args().configure(Err("no port".to_string()), false);
    assert_eq!(bad.err(), Some("invalid bind_address: no port".to_string()));
    let mut blank = args();
    blank.worker_id = String::new();
    let refused = blank.configure(Err("no port".to_string()), false);
    assert_eq!(refused.err(), Some("worker_id must not be empty".to_string()));
}

#[test]
fn servers_run_once_announced() {
    let mut s = ControlServer::new("a:1".to_string(), None);
    assert!(matches!(s.step(ServerEvent::RuntimeReady), ServerAction::Bind));
    assert!(matches!(s.step(ServerEvent::Bound), ServerAction::ReadAddress));
    assert!(matches!(
        s.step(ServerEvent::AddressRead("a:2".to_string())),
        ServerAction::Announce(a) if a == "a:2"
    ));
    assert!(!s.running);
    assert!(matches!(s.step(ServerEvent::Announced), ServerAction::Serve { inference: false }));
    assert!(s.running);
    assert!(matches!(
        s.step(ServerEvent::ServeFailed("boom".to_string())),
        ServerAction::Finish
    ));
    assert!(!s.running);
    assert_eq!(s.last_error.as_deref(), Some("boom"));
    assert_eq!(s.state, ServerState::Stopped);
}

fn gave_up(action: ServerAction) -> (String, bool) {
    match action {
        ServerAction::GiveUp { message, signal } => (message, signal),
        _ => panic!("expected the server to give up"),
    }
}

#[test]
fn servers_say_why_they_give_up() {
    let inference = |engine: &str| {
        Some(InferenceConfig {
            engine_type: engine.to_string(),
            engine_endpoint: "e:1".to_string(),
        })
    };
    let mut s = ControlServer::new("a:1".to_string(), None);
    assert_eq!(
        gave_up(s.step(ServerEvent::RuntimeFailed("x".to_string()))),
        ("failed to create runtime: x".to_string(), false)
    );
    let mut s = ControlServer::new("a:1".to_string(), inference("vllm"));
    assert_eq!(
        gave_up(s.step(ServerEvent::RuntimeReady)),
        ("WorkerInference adapter is not implemented for engine vllm".to_string(), true)
    );
    let mut s = ControlServer::new("a:1".to_string(), inference("SGLang"));
    assert!(matches!(s.step(ServerEvent::RuntimeReady), ServerAction::Connect(e) if e == "e:1"));
    assert_eq!(
        gave_up(s.step(ServerEvent::ConnectFailed("x".to_string()))),
        ("failed to connect WorkerInference adapter to e:1: x".to_string(), true)
    );
    let mut s = ControlServer::new("a:1".to_string(), None);
    s.step(ServerEvent::RuntimeReady);
    assert_eq!(
        gave_up(s.step(ServerEvent::BindFailed("x".to_string()))),
        ("failed to bind a:1: x".to_string(), true)
    );
    assert_eq!(
        startup_outcome(None),
        Err("WorkerControl server exited during startup".to_string())
    );
    assert_eq!(startup_outcome(Some(Ok("a".to_string()))), Ok("a".to_string()));
}

#[test]
fn late_servers_can_be_waited_for_again() {
    let mut h = Handles::new();
    assert_eq!(h.stop(false), Err(StopError::BadTimeout));
    let plan = h.stop(true).unwrap();
    assert!(plan.signal && plan.wait);
    assert_eq!(h.waited(Some(WaitOutcome::TimedOut)), Err(StopError::Late));
    let plan = h.stop(true).unwrap();
    assert!(!plan.signal && plan.wait);
    assert_eq!(h.waited(Some(WaitOutcome::Ended)), Ok(true));
    let plan = h.stop(true).unwrap();
    assert!(!plan.signal && !plan.wait);
    assert_eq!(h.waited(None), Ok(false));
    assert!(!h.drop_signal());
    assert_eq!(StopError::Panicked.message(), "WorkerControl server thread panicked");
}

// ── Gateway ─────────────────────────────────────────────────────────────────

fn worker_at(url: &str) -> WorkerData {
    WorkerData {
        local: true,
        default_timeout_secs: Some(5),
        url: url.to_string(),
        timeout_secs: None,
        smg: false,
        control_url: None,
        connection_mode: None,
    }
}

fn message(e: DetectError) -> String {
    match e {
        DetectError::Failed(m) => m,
        DetectError::Missing(m) => format!("missing {m}"),
    }
}

#[test]
fn explicit_schemes_are_probed_alone() {
    let step = DetectConnectionModeStep;
    let mut w = worker_at("grpc://a:1");
    assert!(matches!(
        step.execute(&mut w),
        Ok(Probe::One { mode: ConnectionMode::Grpc, timeout_secs: 5, .. })
    ));
    let e = step.conclude(&mut w, &Reply::One(Err("no".to_string())));
    assert_eq!(
        message(e.unwrap_err()),
        "gRPC health check failed for explicitly configured worker URL grpc://a:1: no"
    );
    assert_eq!(w.connection_mode, None);
    assert!(step.conclude(&mut w, &Reply::One(Ok(()))).is_ok());
    assert_eq!(w.connection_mode, Some(ConnectionMode::Grpc));
    let mut w = worker_at("ipc:///tmp/x");
    assert!(matches!(step.execute(&mut w), Ok(Probe::Known)));
    assert_eq!(w.connection_mode, Some(ConnectionMode::Zmq));
}

#[test]
fn http_wins_where_both_answer() {
    let step = DetectConnectionModeStep;
    let mut w = worker_at("a:1");
    w.timeout_secs = Some(9);
    assert!(matches!(step.execute(&mut w), Ok(Probe::Both { timeout_secs: 9, .. })));
    let both = Reply::Both { http: Ok(()), grpc: Ok(()) };
    assert!(matches!(step.conclude(&mut w, &both), Ok(ConnectionMode::Http)));
    let grpc = Reply::Both { http: Err("h".to_string()), grpc: Ok(()) };
    assert!(matches!(step.conclude(&mut w, &grpc), Ok(ConnectionMode::Grpc)));
    let none = Reply::Both { http: Err("h".to_string()), grpc: Err("g".to_string()) };
    let e = step.conclude(&mut w, &none).unwrap_err();
    assert!(step.is_retryable(&e));
    assert_eq!(
        message(e),
        "Both HTTP and gRPC health checks failed for a:1: HTTP: h, gRPC: g"
    );
}

#[test]
fn own_workers_are_reached_over_grpc() {
    let step = DetectConnectionModeStep;
    let mut w = worker_at("http://a:1");
    w.smg = true;
    assert_eq!(
        message(step.execute(&mut w).err().unwrap()),
        "SMG worker http://a:1 must use a grpc:// or grpcs:// URL, got HTTP"
    );
    w.url = "grpc://a:1".to_string();
    w.control_url = Some("http://c:1".to_string());
    assert_eq!(
        message(step.execute(&mut w).err().unwrap()),
        "SMG Worker control endpoint http://c:1 must use grpc:// or grpcs://, got HTTP"
    );
    w.control_url = Some("grpcs://c:1".to_string());
    assert!(matches!(step.execute(&mut w), Ok(Probe::Control { url, .. }) if url == "grpcs://c:1"));
    let e = step.conclude(&mut w, &Reply::Control(Err("x".to_string())));
    assert_eq!(
        message(e.unwrap_err()),
        "SMG Worker control-plane handshake failed for grpcs://c:1: x"
    );
    assert!(step.conclude(&mut w, &Reply::Control(Ok(()))).is_ok());
    assert_eq!(w.connection_mode, Some(ConnectionMode::Grpc));
}

#[test]
fn other_workers_are_skipped() {
    let step = DetectConnectionModeStep;
    let mut w = worker_at("a:1");
    w.local = false;
    assert!(matches!(step.execute(&mut w), Ok(Probe::Skip)));
    let mut w = worker_at("a:1");
    w.default_timeout_secs = None;
    assert_eq!(message(step.execute(&mut w).err().unwrap()), "missing app_context");
}

#[test]
fn transports_take_two_engines() {
    let e = ZmqWorkerTransport::connect(RuntimeType::Other("sglang".to_string()), 1);
    assert_eq!(
        e.err().unwrap(),
        "Worker ZMQ transport supports only vllm and tokenspeed, not sglang"
    );
    let e = ZmqWorkerTransport::connect(RuntimeType::Vllm, 0);
    assert_eq!(e.err().unwrap(), "Worker ZMQ engine_count must be positive");
    let t = ZmqWorkerTransport::connect(RuntimeType::TokenSpeed, 1).ok().unwrap();
    let request = worker::GenerateRequest { request_id: "r".to_string(), ..Default::default() };
    assert!(
        matches!(t.generate(request.clone()), Ok(EngineRequest::TokenSpeed(q)) if q.request_id == "r")
    );
    let t = ZmqWorkerTransport {
        runtime: RuntimeType::Other("mlx".to_string()),
        active: t.active,
    };
    let status = t.generate(request).err().unwrap();
    assert_eq!(status.code, Code::FailedPrecondition);
    assert_eq!(status.message, "Worker ZMQ transport is unavailable for mlx");
}

#[test]
fn aborts_cancel_once() {
    let mut t = ZmqWorkerTransport::connect(RuntimeType::Vllm, 1).ok().unwrap();
    assert_eq!(t.active.insert("a", 1), None);
    assert_eq!(t.active.insert("b", 2), None);
    assert_eq!(t.active.insert("a", 3), Some(1));
    let (stream, answer) = t.abort("a");
    assert_eq!(stream, Some(3));
    assert!(answer.success && answer.message.is_empty());
    let (stream, answer) = t.abort("a");
    assert_eq!(stream, None);
    assert!(answer.success);
    assert_eq!(t.active.remove("b"), Some(2));
}

#[test]
fn streams_end_behind_an_error() {
    let mut s = ZmqStream { done: false };
    assert_eq!(s.step(&StreamEvent::Item), StreamAction::Pass);
    assert_eq!(s.step(&StreamEvent::Failed), StreamAction::PassError);
    assert_eq!(s.step(&StreamEvent::Item), StreamAction::End);
    let mut s = ZmqStream { done: false };
    assert_eq!(s.step(&StreamEvent::Cancelled), StreamAction::End);
    assert_eq!(s.step(&StreamEvent::Exhausted), StreamAction::End);
}

// ── Load on the index ───────────────────────────────────────────────────────

fn words(args: &[&str]) -> Vec<String> {
    args.iter().map(|s| s.to_string()).collect()
}

#[test]
fn flags_are_read_by_their_first_place() {
    let a = words(&["x", "--secs", "7", "--secs", "8", "--workers", "no", "--queriers"]);
    assert_eq!(parse_flag(&a, "--secs", u64::MAX), Some(7));
    assert_eq!(parse_flag(&a, "--workers", u64::MAX), None);
    assert_eq!(parse_flag(&a, "--queriers", u64::MAX), None);
    assert_eq!(parse_flag(&a, "--secs", 6), None);
    let o = Options::from_args(&a);
    assert_eq!((o.secs, o.workers, o.queriers, o.publishers), (7, 64, 2, 16));
    assert_eq!((o.chain_len, o.hot_per_worker, o.dup_pct), (256, 8, 90));
}

#[test]
fn workers_have_addresses() {
    assert_eq!(worker_url(0), "grpc://10.0.0.0:9000");
    assert_eq!(worker_url(253), "grpc://10.0.0.3:9001");
}

#[test]
fn hot_chains_are_the_same_for_everyone() {
    assert_eq!(hot_contents(3, 1, 8), hot_contents(3, 1, 8));
    assert_ne!(hot_contents(3, 1, 8), hot_contents(3, 2, 8));
    assert_eq!(hot_contents(3, 1, 8)[..4], hot_contents(3, 1, 4)[..]);
    assert!(hot_contents(0, 0, 8).iter().all(|c| c.0 % 2 == 1));
    let u = placement_update("h", &hot_contents(0, 0, 8));
    match &u.events[0].kind {
        Some(EventKind::Stored { parent_seq_hash: None, blocks }) => {
            assert_eq!(blocks.len(), 8);
            assert_eq!(blocks[0].seq_hash, blocks[0].content_hash);
        }
        other => panic!("unexpected {other:?}"),
    }
}

#[test]
fn publishers_repeat_or_extend_hot_chains() {
    let mut o = Options::from_args(&words(&["--chain-len", "4", "--dup-pct", "100"]));
    let mut p = Publisher::new(1);
    let (update, blocks) = p.next(&o);
    assert_eq!((blocks, p.nonce, update.epoch, update.seq), (4, 0, 1, 0));
    o.dup_pct = 0;
    let (_, blocks) = p.next(&o);
    assert_eq!((blocks, p.nonce), (36, 1));
}

#[test]
fn queries_correlate_with_answers() {
    let o = Options::from_args(&words(&["--chain-len", "4"]));
    let mut q = Querier::new(5);
    let query = q.next(&o);
    assert_eq!((query.query_id, query.content_hashes.len()), (1, 4));
    assert!(!q.take(2, 1));
    assert!(!q.take(1, 0));
    assert!(q.take(1, 1));
    assert_eq!(q.next(&o).query_id, 2);
}

#[test]
fn percentiles_come_from_sorted_latencies() {
    let p = percentiles(vec![5, 1, 4, 2, 3], &Ranks { p50: 2, p90: 4, p99: 9 });
    assert_eq!((p.n, p.p50, p.p90, p.p99), (5, 3, 5, 5));
}
