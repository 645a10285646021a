//! What a worker's control service says of the worker, and the course of its server.

use crate::control::completed;
use crate::control::complaint;
use crate::control::expects;
use crate::control::has_waited;
use crate::control::identifies;
use crate::control::lays_out;
use crate::control::leads_to;
use crate::control::offers;
use crate::control::serves;
use crate::control::state_named;
use crate::control::stops;
use crate::control::takes_health;
use crate::control::tells_health;
use crate::control::unknown_state;
use crate::control::quoted_text;
use crate::control::BridgeConfig;
use crate::control::ControlServer;
use crate::control::GetHealthResponse;
use crate::control::Handles;
use crate::control::HealthSnapshot;
use crate::control::InferenceConfig;
use crate::control::ServerAction;
use crate::control::ServerArgs;
use crate::control::ServerEvent;
use crate::control::ServerState;
use crate::control::StopError;
use crate::control::StopPlan;
use crate::control::Timestamp;
use crate::control::WaitOutcome;
use crate::control::WorkerCapabilities;
use crate::control::WorkerHealthState;
use crate::control::WorkerIdentity;
use crate::control::WorkerTopology;
use crate::text::is_white;
use crate::text::middles_are_within;
use crate::text::small_letters;
use crate::text::views;
use crate::text::within;
use crate::text::written_digits_are_read;
use vstd::prelude::*;

verus! {

/// A state's name in small letters, with an underscore or a hyphen where it has two words.
pub open spec fn names(name: Seq<char>, state: WorkerHealthState) -> bool {
    match state {
        WorkerHealthState::Starting => name == "starting"@,
        WorkerHealthState::Serving => name == "serving"@,
        WorkerHealthState::Degraded => name == "degraded"@,
        WorkerHealthState::Draining => name == "draining"@,
        WorkerHealthState::NotServing => name == "not_serving"@ || name == "not-serving"@,
    }
}

/// Every state has its name, and case does not matter; a text that is no state's name is
/// quoted in the complaint.
pub proof fn states_have_names(name: Seq<char>, state: WorkerHealthState)
    ensures
        state_named(name) == Some(state) <==> names(small_letters(name), state),
        state_named(name) is None ==> within(quoted_text(name), unknown_state(name)),
{
    reveal_strlit("starting");
    reveal_strlit("serving");
    reveal_strlit("degraded");
    reveal_strlit("draining");
    reveal_strlit("not_serving");
    reveal_strlit("not-serving");
    let s = small_letters(name);
    assert("starting"@[1] == 't' && "serving"@[1] == 'e' && "degraded"@[1] == 'e');
    assert("draining"@[1] == 'r' && "not_serving"@[1] == 'o' && "not-serving"@[1] == 'o');
    assert("serving"@[0] == 's' && "degraded"@[0] == 'd');
    middles_are_within("unknown worker health state "@, quoted_text(name), Seq::empty());
}

/// The text has a character that is not white space.
pub open spec fn says_something(s: Seq<char>) -> bool {
    exists|i: int| 0 <= i < s.len() && !is_white(#[trigger] s[i])
}

/// A server needs a worker, an engine and its endpoint, and the first that is missing is
/// named.
pub proof fn arguments_are_refused_for_cause(args: ServerArgs)
    ensures
        complaint(args) is None <==> says_something(args.worker_id@) && says_something(
            args.engine_type@,
        ) && says_something(args.engine_endpoint@),
        !says_something(args.worker_id@) ==> within("worker_id"@, complaint(args)->0),
        says_something(args.worker_id@) && !says_something(args.engine_type@) ==> within(
            "engine_type"@,
            complaint(args)->0,
        ),
        says_something(args.worker_id@) && says_something(args.engine_type@) && !says_something(
            args.engine_endpoint@,
        ) ==> within("engine_endpoint"@, complaint(args)->0),
{
    reveal_strlit("worker_id");
    reveal_strlit("engine_type");
    reveal_strlit("engine_endpoint");
    reveal_strlit("worker_id must not be empty");
    reveal_strlit("engine_type must not be empty");
    reveal_strlit("engine_endpoint must not be empty");
    assert("worker_id"@ =~= "worker_id must not be empty"@.subrange(0, 0int + "worker_id"@.len()));
    assert("engine_type"@ =~= "engine_type must not be empty"@.subrange(
        0,
        0int + "engine_type"@.len(),
    ));
    assert("engine_endpoint"@ =~= "engine_endpoint must not be empty"@.subrange(
        0,
        0int + "engine_endpoint"@.len(),
    ));
}

/// What is given stays, and what is not is filled in: an instance is named after its
/// worker, a host after its address, and one feature is offered.
pub proof fn given_arguments_are_kept(
    args: ServerArgs,
    random: u64,
    ip: Seq<char>,
    c: BridgeConfig,
    i: int,
)
    requires
        completed(args, random, ip, c),
    ensures
        c.worker_id@ == args.worker_id@,
        c.zone@ == args.zone@,
        c.engine_type@ == args.engine_type@,
        c.engine_version@ == args.engine_version@,
        c.engine_endpoint@ == args.engine_endpoint@,
        c.max_concurrent_requests == args.max_concurrent_requests,
        c.model_ids@.len() == args.model_ids@.len(),
        0 <= i < args.model_ids@.len() ==> c.model_ids@[i]@ == args.model_ids@[i]@,
        args.instance_id matches Some(s) ==> c.instance_id@ == s@,
        args.hostname matches Some(s) ==> c.hostname@ == s@,
        args.hostname is None ==> c.hostname@ == ip,
        args.features matches Some(f) ==> c.features@.len() == f@.len() && (0 <= i < f@.len()
            ==> c.features@[i]@ == f@[i]@),
        args.features is None ==> c.features@.len() == 1 && c.features@[0]@ == "generate"@,
        args.instance_id is None ==> c.instance_id@.len() == args.worker_id@.len() + 17
            && c.instance_id@.take(args.worker_id@.len() as int) == args.worker_id@
            && c.instance_id@[args.worker_id@.len() as int] == '-',
{
    let f = views(c.features@);
    assert(views(c.model_ids@).len() == views(args.model_ids@).len());
    assert(f.len() == c.features@.len());
    if 0 <= i < args.model_ids@.len() {
        assert(views(c.model_ids@)[i] == views(args.model_ids@)[i]);
    }
    match args.features {
        Some(g) => {
            assert(views(g@).len() == g@.len());
            if 0 <= i < g@.len() {
                assert(f[i] == views(g@)[i]);
            }
        },
        None => {
            assert(f[0] == "generate"@);
        },
    }
    if args.instance_id is None {
        reveal_strlit("-");
        written_digits_are_read(random as nat, 16);
        assert(c.instance_id@.take(args.worker_id@.len() as int) =~= args.worker_id@);
    }
}

/// Instances that are named after different numbers have different names.
pub proof fn instances_are_told_apart(
    args: ServerArgs,
    m: u64,
    n: u64,
    ip: Seq<char>,
    c: BridgeConfig,
    d: BridgeConfig,
)
    requires
        completed(args, m, ip, c),
        completed(args, n, ip, d),
        args.instance_id is None,
        m != n,
    ensures
        c.instance_id@ != d.instance_id@,
{
    vstd::arithmetic::power2::lemma2_to64();
    assert(vstd::arithmetic::power::pow(16, 16) == 0x1_0000_0000_0000_0000) by {
        reveal_with_fuel(vstd::arithmetic::power::pow, 17);
    }
    written_digits_are_read(m as nat, 16);
    written_digits_are_read(n as nat, 16);
    let (a, b) = (
        crate::text::hexadecimal(m as nat, 16),
        crate::text::hexadecimal(n as nat, 16),
    );
    if c.instance_id@ == d.instance_id@ {
        let w = args.worker_id@ + "-"@;
        assert((w + a).skip(w.len() as int) =~= a);
        assert((w + b).skip(w.len() as int) =~= b);
    }
}

/// Inference is served where it is wanted, by the engine that the arguments name.
pub proof fn the_named_engine_serves(
    args: ServerArgs,
    enabled: bool,
    c: Option<InferenceConfig>,
)
    requires
        serves(args, enabled, c),
    ensures
        c is Some <==> enabled,
        enabled ==> c->0.engine_type@ == args.engine_type@ && c->0.engine_endpoint@
            == args.engine_endpoint@,
{
}

/// The three answers of the service are about one worker and its one engine, and say of
/// both what the configuration says.
pub proof fn answers_are_about_the_worker(
    config: BridgeConfig,
    version: Seq<char>,
    now: Timestamp,
    i: WorkerIdentity,
    c: WorkerCapabilities,
    t: WorkerTopology,
    k: int,
)
    requires
        identifies(i, config, version, now),
        offers(c, config),
        lays_out(t, config, now),
    ensures
        i.worker_id@ == config.worker_id@ && t.worker_id@ == config.worker_id@,
        i.instance_id@ == config.instance_id@,
        i.hostname@ == config.hostname@,
        i.zone@ == config.zone@,
        i.version@ == version,
        i.started_at == Some(now) && t.observed_at == Some(now),
        c.engines@.len() == 1 && t.engines@.len() == 1,
        c.engines@[0].engine_type@ == config.engine_type@ && t.engines@[0].engine_type@
            == config.engine_type@,
        c.engines@[0].engine_version@ == config.engine_version@,
        t.engines@[0].endpoint@ == config.engine_endpoint@,
        c.max_concurrent_requests == config.max_concurrent_requests,
        c.engines@[0].model_ids@.len() == config.model_ids@.len(),
        t.engines@[0].model_ids@.len() == config.model_ids@.len(),
        0 <= k < config.model_ids@.len() ==> c.engines@[0].model_ids@[k]@ == config.model_ids@[k]@
            && t.engines@[0].model_ids@[k]@ == config.model_ids@[k]@,
        c.features@.len() == config.features@.len(),
        c.engines@[0].features@.len() == config.features@.len(),
        0 <= k < config.features@.len() ==> c.features@[k]@ == config.features@[k]@
            && c.engines@[0].features@[k]@ == config.features@[k]@,
        (c.api_major, c.api_minor, t.topology_version) == (1u32, 0u32, 1u64),
        i.labels@.len() == 1 && i.labels@[0].0@ == "role"@ && i.labels@[0].1@ == "smg-worker"@,
        c.attributes@.len() == 0 && t.engines@[0].attributes@.len() == 0,
        t.engines@[0].data_parallel_rank is None && t.engines@[0].tensor_parallel_rank is None
            && t.engines@[0].pipeline_parallel_rank is None,
{
    let (m, f) = (views(config.model_ids@), views(config.features@));
    assert(m.len() == config.model_ids@.len() && f.len() == config.features@.len());
    assert(views(c.engines@[0].model_ids@).len() == m.len());
    assert(views(t.engines@[0].model_ids@).len() == m.len());
    assert(views(c.features@).len() == f.len());
    assert(views(c.engines@[0].features@).len() == f.len());
    if 0 <= k < config.model_ids@.len() {
        assert(views(c.engines@[0].model_ids@)[k] == m[k]);
        assert(views(t.engines@[0].model_ids@)[k] == m[k]);
    }
    if 0 <= k < config.features@.len() {
        assert(views(c.features@)[k] == f[k]);
        assert(views(c.engines@[0].features@)[k] == f[k]);
    }
}

// ── The server ──────────────────────────────────────────────────────────────

/// How far a server has come.
pub open spec fn stage(state: ServerState) -> int {
    match state {
        ServerState::Runtime => 0,
        ServerState::Adapter => 1,
        ServerState::Bind => 2,
        ServerState::Address => 3,
        ServerState::Announce => 4,
        ServerState::Serving => 5,
        ServerState::Stopped => 6,
    }
}

/// The event is one of the bad ones, with this cause.
pub open spec fn fails_with(event: ServerEvent, cause: Seq<char>) -> bool {
    match event {
        ServerEvent::RuntimeFailed(e) => e@ == cause,
        ServerEvent::ConnectFailed(e) => e@ == cause,
        ServerEvent::BindFailed(e) => e@ == cause,
        ServerEvent::AddressFailed(e) => e@ == cause,
        _ => false,
    }
}

/// A server goes one way: every event takes it to a later stage, one at a time where
/// nothing fails, past the adapter where there is none.
pub proof fn servers_go_one_way(
    pre: ControlServer,
    event: ServerEvent,
    post: ControlServer,
    action: ServerAction,
)
    requires
        expects(pre.state, event),
        leads_to(pre, event, post, action),
    ensures
        stage(post.state) > stage(pre.state),
        pre.state != ServerState::Stopped,
        post.state != ServerState::Stopped && pre.state != ServerState::Runtime ==> stage(
            post.state,
        ) == stage(pre.state) + 1,
        pre.state == ServerState::Runtime && pre.inference is None ==> post.state
            != ServerState::Adapter,
        pre.state == ServerState::Runtime && pre.inference is Some ==> post.state
            == ServerState::Adapter || post.state == ServerState::Stopped,
        post.inference == pre.inference && post.bind_address == pre.bind_address,
        post.running <==> post.state == ServerState::Serving,
{
}

/// A server does what its stage asks for: it connects to the engine, binds, reads the
/// address and announces that address, serves, with inference where there is some.
pub proof fn stages_have_their_work(
    pre: ControlServer,
    event: ServerEvent,
    post: ControlServer,
    action: ServerAction,
)
    requires
        expects(pre.state, event),
        leads_to(pre, event, post, action),
    ensures
        action is Connect <==> post.state == ServerState::Adapter,
        action matches ServerAction::Connect(endpoint) ==> pre.inference matches Some(i)
            && endpoint@ == i.engine_endpoint@ && small_letters(i.engine_type@) == "sglang"@,
        action is Bind <==> post.state == ServerState::Bind,
        action is ReadAddress <==> post.state == ServerState::Address,
        action is Announce <==> post.state == ServerState::Announce,
        action matches ServerAction::Announce(a) ==> event matches ServerEvent::AddressRead(b)
            && a == b,
        action is Serve <==> post.state == ServerState::Serving,
        action matches ServerAction::Serve { inference } ==> inference == (pre.inference is Some),
        action is Finish || action is GiveUp <==> post.state == ServerState::Stopped,
        action is Finish <==> event is AnnounceLost || event is Served || event is ServeFailed,
{
}

/// A server that gives up says why: with the cause, with the address or the endpoint that
/// it was about, or with the engine that has no adapter. Whoever stops the server hears of
/// it too, unless there was no runtime.
pub proof fn servers_say_why_they_give_up(
    pre: ControlServer,
    event: ServerEvent,
    post: ControlServer,
    action: ServerAction,
    cause: Seq<char>,
)
    requires
        expects(pre.state, event),
        leads_to(pre, event, post, action),
    ensures
        fails_with(event, cause) ==> action is GiveUp && within(cause, action->message@),
        event is BindFailed ==> within(pre.bind_address@, action->message@),
        event is ConnectFailed && pre.inference is Some ==> within(
            pre.inference->0.engine_endpoint@,
            action->message@,
        ),
        event is RuntimeReady ==> (action is GiveUp <==> pre.inference is Some && small_letters(
            pre.inference->0.engine_type@,
        ) != "sglang"@),
        event is RuntimeReady && action is GiveUp ==> within(
            pre.inference->0.engine_type@,
            action->message@,
        ),
        action is GiveUp ==> (action->signal <==> !(event is RuntimeFailed)),
        event matches ServerEvent::ServeFailed(e) ==> post.last_error == Some(e),
        !(event is ServeFailed) ==> post.last_error == pre.last_error,
{
    match event {
        ServerEvent::RuntimeReady => {
            if let Some(i) = pre.inference {
                middles_are_within(
                    "WorkerInference adapter is not implemented for engine "@,
                    i.engine_type@,
                    Seq::empty(),
                );
            }
        },
        ServerEvent::RuntimeFailed(e) => {
            middles_are_within("failed to create runtime: "@, e@, Seq::empty());
        },
        ServerEvent::ConnectFailed(e) => {
            let a = "failed to connect WorkerInference adapter to "@;
            let b = match pre.inference {
                Some(i) => i.engine_endpoint@,
                None => ""@,
            };
            middles_are_within(a, b, ": "@ + e@);
            assert(a + b + (": "@ + e@) =~= a + b + ": "@ + e@);
            middles_are_within(a + b + ": "@, e@, Seq::empty());
        },
        ServerEvent::BindFailed(e) => {
            let a = "failed to bind "@;
            middles_are_within(a, pre.bind_address@, ": "@ + e@);
            assert(a + pre.bind_address@ + (": "@ + e@) =~= a + pre.bind_address@ + ": "@ + e@);
            middles_are_within(a + pre.bind_address@ + ": "@, e@, Seq::empty());
        },
        ServerEvent::AddressFailed(e) => {
            middles_are_within("failed to read listener address: "@, e@, Seq::empty());
        },
        _ => {},
    }
}

// ── Stopping, and health ────────────────────────────────────────────────────

/// A server is told to stop once and joined once. One that is late can be waited for again,
/// without being told again; a bad timeout changes nothing.
pub proof fn servers_are_stopped_once(
    h: Handles,
    begun: Handles,
    plan: StopPlan,
    outcome: Option<WaitOutcome>,
    waited: Handles,
    r: Result<bool, StopError>,
    again: Handles,
    second: StopPlan,
)
    requires
        stops(h, true, begun, Ok(plan)),
        has_waited(begun, outcome, waited, r),
        stops(waited, true, again, Ok(second)),
    ensures
        plan.signal == h.shutdown && plan.wait == h.done,
        !second.signal,
        second.wait <==> outcome == Some(WaitOutcome::TimedOut),
        r is Ok <==> outcome != Some(WaitOutcome::TimedOut),
        r == Ok::<bool, StopError>(true) ==> h.thread && !waited.thread,
        outcome == Some(WaitOutcome::TimedOut) ==> r == Err::<bool, StopError>(StopError::Late)
            && waited.thread == h.thread,
        outcome != Some(WaitOutcome::TimedOut) ==> r == Ok::<bool, StopError>(h.thread),
        forall|post: Handles, x: Result<StopPlan, StopError>| #[trigger]
            stops(h, false, post, x) ==> post == h && x == Err::<StopPlan, StopError>(
                StopError::BadTimeout,
            ),
{
}

/// Health is told as it was last set: the state that was named and the message, of the
/// worker and of its engine. A name that names nothing leaves it as it was.
pub proof fn health_is_told_as_set(
    pre: HealthSnapshot,
    state: Seq<char>,
    message: String,
    post: HealthSnapshot,
    set: Result<(), String>,
    now: Timestamp,
    with_engine: bool,
    told: GetHealthResponse,
    named: WorkerHealthState,
)
    requires
        takes_health(pre, state, message, post, set),
        tells_health(post, with_engine, now, told),
    ensures
        names(small_letters(state), named) ==> set is Ok && told.state == named && told.message@
            == message@,
        set is Err ==> told.state == pre.state && told.message@ == pre.message@,
        set is Err <==> state_named(state) is None,
        told.checked_at == Some(now),
        told.components@.len() > 0 <==> with_engine,
        with_engine ==> told.components@.len() == 1 && told.components@[0].state == told.state
            && told.components@[0].message@ == told.message@ && told.components@[0].checked_at
            == Some(now) && told.components@[0].component_id@ == "python-engine-0"@,
{
    states_have_names(state, named);
}

} // verus!
