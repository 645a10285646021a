//! A worker's control service: who it is, what it can do, how it fares; and the
//! life of the server that says so.

use crate::text;
use crate::text::hexadecimal;
use crate::text::is_blank;
use crate::text::same_letters;
use crate::text::small_letters;
use crate::text::views;
use vstd::prelude::*;

verus! {

/// How a worker fares.
#[derive(Debug, Clone, Copy, PartialEq, Eq, Structural)]
pub enum WorkerHealthState {
    Starting,
    Serving,
    Degraded,
    Draining,
    NotServing,
}

/// A moment: seconds since the Unix epoch, and nanoseconds.
#[derive(Debug, Clone, Copy, PartialEq, Eq, Structural)]
pub struct Timestamp {
    pub seconds: i64,
    pub nanos: i32,
}

#[derive(Debug, Clone)]
pub struct HealthSnapshot {
    pub state: WorkerHealthState,
    pub message: String,
}

#[derive(Debug, Clone)]
pub struct WorkerIdentity {
    pub worker_id: String,
    pub instance_id: String,
    pub hostname: String,
    pub zone: String,
    pub version: String,
    pub started_at: Option<Timestamp>,
    pub labels: Vec<(String, String)>,
}

#[derive(Debug, Clone)]
pub struct EngineCapability {
    pub engine_type: String,
    pub engine_version: String,
    pub model_ids: Vec<String>,
    pub features: Vec<String>,
}

#[derive(Debug, Clone)]
pub struct WorkerCapabilities {
    pub api_major: u32,
    pub api_minor: u32,
    pub features: Vec<String>,
    pub engines: Vec<EngineCapability>,
    pub max_concurrent_requests: u32,
    pub attributes: Vec<(String, String)>,
}

#[derive(Debug, Clone)]
pub struct EngineEndpoint {
    pub engine_id: String,
    pub engine_type: String,
    pub endpoint: String,
    pub model_ids: Vec<String>,
    pub replica_group: String,
    pub data_parallel_rank: Option<u32>,
    pub tensor_parallel_rank: Option<u32>,
    pub pipeline_parallel_rank: Option<u32>,
    pub attributes: Vec<(String, String)>,
}

#[derive(Debug, Clone)]
pub struct WorkerTopology {
    pub worker_id: String,
    pub topology_version: u64,
    pub engines: Vec<EngineEndpoint>,
    pub observed_at: Option<Timestamp>,
}

#[derive(Debug, Clone)]
pub struct ComponentHealth {
    pub component_id: String,
    pub state: WorkerHealthState,
    pub message: String,
    pub checked_at: Option<Timestamp>,
}

#[derive(Debug, Clone)]
pub struct GetHealthResponse {
    pub state: WorkerHealthState,
    pub message: String,
    pub checked_at: Option<Timestamp>,
    pub components: Vec<ComponentHealth>,
}

/// The state that a name names, whichever of its letters are capitals.
pub open spec fn state_named(name: Seq<char>) -> Option<WorkerHealthState> {
    let s = small_letters(name);
    if s == "starting"@ {
        Some(WorkerHealthState::Starting)
    } else if s == "serving"@ {
        Some(WorkerHealthState::Serving)
    } else if s == "degraded"@ {
        Some(WorkerHealthState::Degraded)
    } else if s == "draining"@ {
        Some(WorkerHealthState::Draining)
    } else if s == "not_serving"@ || s == "not-serving"@ {
        Some(WorkerHealthState::NotServing)
    } else {
        None
    }
}

/// A text in quotes, as the `Debug` format of `str` has it.
pub uninterp spec fn quoted_text(s: Seq<char>) -> Seq<char>;

/// The `Debug` format of `str`: the text in quotes, with what has to be escaped.
/// It depends on the text alone.
#[verifier::external_body]
fn quote(s: &str) -> (r: String)
    ensures
        r@ == quoted_text(s@),
{
    format!("{s:?}")
}

/// What is said of a name that names no state.
pub open spec fn unknown_state(state: Seq<char>) -> Seq<char> {
    "unknown worker health state "@ + quoted_text(state)
}

/// The state that a name names.
pub fn parse_health_state(state: &str) -> (r: Result<WorkerHealthState, String>)
    ensures
        match state_named(state@) {
            Some(named) => r == Ok::<WorkerHealthState, String>(named),
            None => r matches Err(e) && e@ == unknown_state(state@),
        },
{
    if same_letters(state, "starting") {
        Ok(WorkerHealthState::Starting)
    } else if same_letters(state, "serving") {
        Ok(WorkerHealthState::Serving)
    } else if same_letters(state, "degraded") {
        Ok(WorkerHealthState::Degraded)
    } else if same_letters(state, "draining") {
        Ok(WorkerHealthState::Draining)
    } else if same_letters(state, "not_serving") || same_letters(state, "not-serving") {
        Ok(WorkerHealthState::NotServing)
    } else {
        let mut e = "unknown worker health state ".to_owned();
        e.append(quote(state).as_str());
        Err(e)
    }
}

// ── How a server is set up ──────────────────────────────────────────────────

/// What is asked of a server.
pub struct ServerArgs {
    pub worker_id: String,
    pub engine_type: String,
    pub model_ids: Vec<String>,
    pub engine_endpoint: String,
    pub instance_id: Option<String>,
    pub hostname: Option<String>,
    pub zone: String,
    pub engine_version: String,
    pub features: Option<Vec<String>>,
    pub max_concurrent_requests: u32,
}

/// What is wrong with it.
pub open spec fn complaint(args: ServerArgs) -> Option<Seq<char>> {
    if is_blank(args.worker_id@) {
        Some("worker_id must not be empty"@)
    } else if is_blank(args.engine_type@) {
        Some("engine_type must not be empty"@)
    } else if is_blank(args.engine_endpoint@) {
        Some("engine_endpoint must not be empty"@)
    } else {
        None
    }
}

/// What a server is made of.
pub struct BridgeConfig {
    pub worker_id: String,
    pub instance_id: String,
    pub hostname: String,
    pub zone: String,
    pub engine_type: String,
    pub engine_version: String,
    pub engine_endpoint: String,
    pub model_ids: Vec<String>,
    pub features: Vec<String>,
    pub max_concurrent_requests: u32,
}

/// `c` is what the arguments ask for, with what they leave out filled in: the
/// instance from a random number, the host from an address.
pub open spec fn completed(
    args: ServerArgs,
    random: u64,
    ip: Seq<char>,
    c: BridgeConfig,
) -> bool {
    &&& c.worker_id@ == args.worker_id@
    &&& c.instance_id@ == match args.instance_id {
        Some(s) => s@,
        None => args.worker_id@ + "-"@ + hexadecimal(random as nat, 16),
    }
    &&& c.hostname@ == match args.hostname {
        Some(s) => s@,
        None => ip,
    }
    &&& c.zone@ == args.zone@
    &&& c.engine_type@ == args.engine_type@
    &&& c.engine_version@ == args.engine_version@
    &&& c.engine_endpoint@ == args.engine_endpoint@
    &&& views(c.model_ids@) == views(args.model_ids@)
    &&& views(c.features@) == match args.features {
        Some(f) => views(f@),
        None => seq!["generate"@],
    }
    &&& c.max_concurrent_requests == args.max_concurrent_requests
}

/// `c` is what the arguments ask for, with some number for a nameless instance.
pub open spec fn configured(args: ServerArgs, ip: Seq<char>, c: BridgeConfig) -> bool {
    exists|random: u64| completed(args, random, ip, c)
}

/// The engine that requests go to, if they are served.
pub open spec fn serves(args: ServerArgs, enabled: bool, c: Option<InferenceConfig>) -> bool {
    match c {
        None => !enabled,
        Some(c) => {
            &&& enabled
            &&& c.engine_type@ == args.engine_type@
            &&& c.engine_endpoint@ == args.engine_endpoint@
        },
    }
}

/// A number from `rand::random`. Any number may come, so nothing is said of it.
#[verifier::external_body]
fn random_number() -> (r: u64) {
    rand::random::<u64>()
}

impl ServerArgs {
    /// What the server is made of, and the engine that it serves. `ip` is the
    /// host of the address to bind, or what is wrong with that address; an
    /// instance without a name gets one at random.
    pub fn configure(self, ip: Result<String, String>, inference_enabled: bool) -> (r: Result<
        (BridgeConfig, Option<InferenceConfig>),
        String,
    >)
        ensures
            match (complaint(self), ip) {
                (Some(message), _) => r matches Err(e) && e@ == message,
                (None, Err(error)) => r matches Err(e) && e@ == "invalid bind_address: "@ + error@,
                (None, Ok(ip)) => r matches Ok(c) && configured(self, ip@, c.0) && serves(
                    self,
                    inference_enabled,
                    c.1,
                ),
            },
    {
        match self.check() {
            Err(e) => {
                return Err(e);
            },
            Ok(()) => {},
        }
        let ip: String = match ip {
            Err(e) => {
                let mut s = "invalid bind_address: ".to_owned();
                s.append(e.as_str());
                return Err(s);
            },
            Ok(ip) => ip,
        };
        let inference: Option<InferenceConfig> = if inference_enabled {
            Some(
                InferenceConfig {
                    engine_type: self.engine_type.as_str().to_owned(),
                    engine_endpoint: self.engine_endpoint.as_str().to_owned(),
                },
            )
        } else {
            None
        };
        let random: u64 = match &self.instance_id {
            Some(_) => 0,
            None => random_number(),
        };
        let ghost args = self;
        let config = self.complete(random, ip.as_str());
        assert(completed(args, random, ip@, config));
        Ok((config, inference))
    }

    /// Whether the arguments hold what they have to.
    pub fn check(&self) -> (r: Result<(), String>)
        ensures
            match complaint(*self) {
                None => r is Ok,
                Some(message) => r matches Err(e) && e@ == message,
            },
    {
        if text::blank(self.worker_id.as_str()) {
            Err("worker_id must not be empty".to_owned())
        } else if text::blank(self.engine_type.as_str()) {
            Err("engine_type must not be empty".to_owned())
        } else if text::blank(self.engine_endpoint.as_str()) {
            Err("engine_endpoint must not be empty".to_owned())
        } else {
            Ok(())
        }
    }

    /// Fills in what was left out: the instance from a random number, the host
    /// from the address that the server binds.
    pub fn complete(self, random: u64, ip: &str) -> (r: BridgeConfig)
        ensures
            completed(self, random, ip@, r),
    {
        let instance_id: String = match self.instance_id {
            Some(s) => s,
            None => {
                let mut s = self.worker_id.as_str().to_owned();
                s.append("-");
                text::push_hexadecimal(&mut s, random, 16);
                s
            },
        };
        let hostname: String = match self.hostname {
            Some(s) => s,
            None => ip.to_owned(),
        };
        let features: Vec<String> = match self.features {
            Some(f) => f,
            None => {
                let mut f: Vec<String> = Vec::new();
                f.push("generate".to_owned());
                assert(views(f@) =~= seq!["generate"@]);
                f
            },
        };
        BridgeConfig {
            worker_id: self.worker_id,
            instance_id,
            hostname,
            zone: self.zone,
            engine_type: self.engine_type,
            engine_version: self.engine_version,
            engine_endpoint: self.engine_endpoint,
            model_ids: self.model_ids,
            features,
            max_concurrent_requests: self.max_concurrent_requests,
        }
    }
}

// ── What the service says ───────────────────────────────────────────────────

/// A worker's control service.
pub struct WorkerControl {
    pub identity: WorkerIdentity,
    pub capabilities: WorkerCapabilities,
    pub topology: WorkerTopology,
    pub health: HealthSnapshot,
}

/// The identity says who the worker is.
pub open spec fn identifies(
    i: WorkerIdentity,
    config: BridgeConfig,
    version: Seq<char>,
    now: Timestamp,
) -> bool {
    &&& i.worker_id@ == config.worker_id@
    &&& i.instance_id@ == config.instance_id@
    &&& i.hostname@ == config.hostname@
    &&& i.zone@ == config.zone@
    &&& i.version@ == version
    &&& i.started_at == Some(now)
    &&& i.labels@.len() == 1
    &&& i.labels@[0].0@ == "role"@
    &&& i.labels@[0].1@ == "smg-worker"@
}

/// The capabilities are those of one engine.
pub open spec fn offers(c: WorkerCapabilities, config: BridgeConfig) -> bool {
    &&& c.api_major == 1
    &&& c.api_minor == 0
    &&& views(c.features@) == views(config.features@)
    &&& c.engines@.len() == 1
    &&& c.engines@[0].engine_type@ == config.engine_type@
    &&& c.engines@[0].engine_version@ == config.engine_version@
    &&& views(c.engines@[0].model_ids@) == views(config.model_ids@)
    &&& views(c.engines@[0].features@) == views(config.features@)
    &&& c.max_concurrent_requests == config.max_concurrent_requests
    &&& c.attributes@.len() == 0
}

/// The topology is that of one engine.
pub open spec fn lays_out(t: WorkerTopology, config: BridgeConfig, now: Timestamp) -> bool {
    &&& t.worker_id@ == config.worker_id@
    &&& t.topology_version == 1
    &&& t.engines@.len() == 1
    &&& t.engines@[0].engine_id@ == "python-engine-0"@
    &&& t.engines@[0].engine_type@ == config.engine_type@
    &&& t.engines@[0].endpoint@ == config.engine_endpoint@
    &&& views(t.engines@[0].model_ids@) == views(config.model_ids@)
    &&& t.engines@[0].replica_group@ == ""@
    &&& t.engines@[0].data_parallel_rank is None
    &&& t.engines@[0].tensor_parallel_rank is None
    &&& t.engines@[0].pipeline_parallel_rank is None
    &&& t.engines@[0].attributes@.len() == 0
    &&& t.observed_at == Some(now)
}

/// The answer tells how the worker fares, and its engine if asked for.
pub open spec fn tells_health(
    health: HealthSnapshot,
    include_components: bool,
    now: Timestamp,
    r: GetHealthResponse,
) -> bool {
    &&& r.state == health.state
    &&& r.message@ == health.message@
    &&& r.checked_at == Some(now)
    &&& r.components@.len() == if include_components {
        1int
    } else {
        0
    }
    &&& include_components ==> {
        &&& r.components@[0].component_id@ == "python-engine-0"@
        &&& r.components@[0].state == health.state
        &&& r.components@[0].message@ == health.message@
        &&& r.components@[0].checked_at == Some(now)
    }
}

/// What is known of the worker's health once it was told.
pub open spec fn takes_health(
    pre: HealthSnapshot,
    state: Seq<char>,
    message: String,
    post: HealthSnapshot,
    r: Result<(), String>,
) -> bool {
    match state_named(state) {
        Some(named) => r is Ok && post.state == named && post.message == message,
        None => (r matches Err(e) && e@ == unknown_state(state)) && post == pre,
    }
}

impl WorkerControl {
    /// A service that starts.
    pub fn new(config: BridgeConfig, version: &str, now: Timestamp) -> (r: WorkerControl)
        ensures
            identifies(r.identity, config, version@, now),
            offers(r.capabilities, config),
            lays_out(r.topology, config, now),
            r.health.state == WorkerHealthState::Starting,
            r.health.message@ == "starting"@,
    {
        let mut labels: Vec<(String, String)> = Vec::new();
        labels.push(("role".to_owned(), "smg-worker".to_owned()));
        let mut engines: Vec<EngineCapability> = Vec::new();
        engines.push(
            EngineCapability {
                engine_type: config.engine_type.as_str().to_owned(),
                engine_version: config.engine_version,
                model_ids: text::copies(&config.model_ids),
                features: text::copies(&config.features),
            },
        );
        let mut endpoints: Vec<EngineEndpoint> = Vec::new();
        endpoints.push(
            EngineEndpoint {
                engine_id: "python-engine-0".to_owned(),
                engine_type: config.engine_type,
                endpoint: config.engine_endpoint,
                model_ids: config.model_ids,
                replica_group: "".to_owned(),
                data_parallel_rank: None,
                tensor_parallel_rank: None,
                pipeline_parallel_rank: None,
                attributes: Vec::new(),
            },
        );
        WorkerControl {
            identity: WorkerIdentity {
                worker_id: config.worker_id.as_str().to_owned(),
                instance_id: config.instance_id,
                hostname: config.hostname,
                zone: config.zone,
                version: version.to_owned(),
                started_at: Some(now),
                labels,
            },
            capabilities: WorkerCapabilities {
                api_major: 1,
                api_minor: 0,
                features: config.features,
                engines,
                max_concurrent_requests: config.max_concurrent_requests,
                attributes: Vec::new(),
            },
            topology: WorkerTopology {
                worker_id: config.worker_id,
                topology_version: 1,
                engines: endpoints,
                observed_at: Some(now),
            },
            health: HealthSnapshot {
                state: WorkerHealthState::Starting,
                message: "starting".to_owned(),
            },
        }
    }

    /// Who the worker is.
    pub fn get_identity(&self) -> (r: &WorkerIdentity)
        ensures
            *r == self.identity,
    {
        &self.identity
    }

    /// What the worker can do.
    pub fn get_capabilities(&self) -> (r: &WorkerCapabilities)
        ensures
            *r == self.capabilities,
    {
        &self.capabilities
    }

    /// Which engines the worker has.
    pub fn get_topology(&self) -> (r: &WorkerTopology)
        ensures
            *r == self.topology,
    {
        &self.topology
    }

    /// How the worker fares, and its engine if asked for.
    pub fn get_health(&self, include_components: bool, now: Timestamp) -> (r: GetHealthResponse)
        ensures
            tells_health(self.health, include_components, now, r),
    {
        let mut components: Vec<ComponentHealth> = Vec::new();
        if include_components {
            components.push(
                ComponentHealth {
                    component_id: "python-engine-0".to_owned(),
                    state: self.health.state,
                    message: self.health.message.as_str().to_owned(),
                    checked_at: Some(now),
                },
            );
        }
        GetHealthResponse {
            state: self.health.state,
            message: self.health.message.as_str().to_owned(),
            checked_at: Some(now),
            components,
        }
    }

    /// Says how the worker fares. An unknown state changes nothing.
    pub fn set_health(&mut self, state: &str, message: String) -> (r: Result<(), String>)
        ensures
            final(self).identity == old(self).identity,
            final(self).capabilities == old(self).capabilities,
            final(self).topology == old(self).topology,
            takes_health(old(self).health, state@, message, final(self).health, r),
    {
        match parse_health_state(state) {
            Ok(state) => {
                self.health = HealthSnapshot { state, message };
                Ok(())
            },
            Err(e) => Err(e),
        }
    }
}

// ── How a server runs ───────────────────────────────────────────────────────

/// What serves inference beside the control service.
pub struct InferenceConfig {
    pub engine_type: String,
    pub engine_endpoint: String,
}

/// Where a server stands.
#[derive(Debug, Clone, Copy, PartialEq, Eq, Structural)]
pub enum ServerState {
    /// The runtime is being built.
    Runtime,
    /// The inference adapter connects to its engine.
    Adapter,
    /// The address is being bound.
    Bind,
    /// The bound address is being read.
    Address,
    /// The starter is being told.
    Announce,
    Serving,
    Stopped,
}

/// What happened.
pub enum ServerEvent {
    RuntimeReady,
    RuntimeFailed(String),
    Connected,
    ConnectFailed(String),
    Bound,
    BindFailed(String),
    AddressRead(String),
    AddressFailed(String),
    Announced,
    /// Nobody waits for the server any more.
    AnnounceLost,
    Served,
    ServeFailed(String),
}

/// What the server does next.
pub enum ServerAction {
    /// Connect the inference adapter to its engine.
    Connect(String),
    Bind,
    ReadAddress,
    /// Tell the starter the address.
    Announce(String),
    /// Serve, with inference if it is there.
    Serve { inference: bool },
    /// Tell the starter why there is no server, and end. `signal` says whether
    /// whoever stops the server is told too.
    GiveUp { message: String, signal: bool },
    /// End, and tell whoever stops the server.
    Finish,
}

/// A server of the control service.
pub struct ControlServer {
    pub state: ServerState,
    pub bind_address: String,
    pub inference: Option<InferenceConfig>,
    pub running: bool,
    pub last_error: Option<String>,
}

/// The event can happen in the state.
pub open spec fn expects(state: ServerState, event: ServerEvent) -> bool {
    match event {
        ServerEvent::RuntimeReady | ServerEvent::RuntimeFailed(_) => state == ServerState::Runtime,
        ServerEvent::Connected | ServerEvent::ConnectFailed(_) => state == ServerState::Adapter,
        ServerEvent::Bound | ServerEvent::BindFailed(_) => state == ServerState::Bind,
        ServerEvent::AddressRead(_) | ServerEvent::AddressFailed(_) => state
            == ServerState::Address,
        ServerEvent::Announced | ServerEvent::AnnounceLost => state == ServerState::Announce,
        ServerEvent::Served | ServerEvent::ServeFailed(_) => state == ServerState::Serving,
    }
}

/// The server gives up with this message.
pub open spec fn gives_up(action: ServerAction, words: Seq<char>, told: bool) -> bool {
    action matches ServerAction::GiveUp { message, signal } && message@ == words && signal == told
}

/// What an event leads to.
pub open spec fn leads_to(
    pre: ControlServer,
    event: ServerEvent,
    post: ControlServer,
    action: ServerAction,
) -> bool {
    &&& post.bind_address == pre.bind_address
    &&& post.inference == pre.inference
    &&& post.running == (post.state == ServerState::Serving)
    &&& match event {
        ServerEvent::ServeFailed(e) => post.last_error == Some(e),
        _ => post.last_error == pre.last_error,
    }
    &&& match event {
        ServerEvent::RuntimeReady => match pre.inference {
            None => post.state == ServerState::Bind && action is Bind,
            Some(i) => if small_letters(i.engine_type@) == "sglang"@ {
                &&& post.state == ServerState::Adapter
                &&& action matches ServerAction::Connect(endpoint) && endpoint@
                    == i.engine_endpoint@
            } else {
                &&& post.state == ServerState::Stopped
                &&& gives_up(
                    action,
                    "WorkerInference adapter is not implemented for engine "@ + i.engine_type@,
                    true,
                )
            },
        },
        ServerEvent::RuntimeFailed(e) => {
            &&& post.state == ServerState::Stopped
            &&& gives_up(action, "failed to create runtime: "@ + e@, false)
        },
        ServerEvent::Connected => post.state == ServerState::Bind && action is Bind,
        ServerEvent::ConnectFailed(e) => {
            &&& post.state == ServerState::Stopped
            &&& gives_up(
                action,
                "failed to connect WorkerInference adapter to "@ + (match pre.inference {
                    Some(i) => i.engine_endpoint@,
                    None => ""@,
                }) + ": "@ + e@,
                true,
            )
        },
        ServerEvent::Bound => post.state == ServerState::Address && action is ReadAddress,
        ServerEvent::BindFailed(e) => {
            &&& post.state == ServerState::Stopped
            &&& gives_up(action, "failed to bind "@ + pre.bind_address@ + ": "@ + e@, true)
        },
        ServerEvent::AddressRead(address) => {
            &&& post.state == ServerState::Announce
            &&& action matches ServerAction::Announce(a) && a == address
        },
        ServerEvent::AddressFailed(e) => {
            &&& post.state == ServerState::Stopped
            &&& gives_up(action, "failed to read listener address: "@ + e@, true)
        },
        ServerEvent::Announced => {
            &&& post.state == ServerState::Serving
            &&& action == (ServerAction::Serve { inference: pre.inference is Some })
        },
        ServerEvent::AnnounceLost | ServerEvent::Served | ServerEvent::ServeFailed(_) => {
            &&& post.state == ServerState::Stopped
            &&& action is Finish
        },
    }
}

fn failed(what: &str, error: &str) -> (r: ServerAction)
    ensures
        gives_up(r, what@ + error@, true),
{
    let mut message = what.to_owned();
    message.append(error);
    ServerAction::GiveUp { message, signal: true }
}

impl ControlServer {
    /// A server whose runtime is being built.
    pub fn new(bind_address: String, inference: Option<InferenceConfig>) -> (r: ControlServer)
        ensures
            r == (ControlServer {
                state: ServerState::Runtime,
                bind_address,
                inference,
                running: false,
                last_error: None,
            }),
    {
        ControlServer {
            state: ServerState::Runtime,
            bind_address,
            inference,
            running: false,
            last_error: None,
        }
    }

    /// Takes one event.
    pub fn step(&mut self, event: ServerEvent) -> (r: ServerAction)
        requires
            expects(old(self).state, event),
        ensures
            leads_to(*old(self), event, *final(self), r),
    {
        self.running = false;
        match event {
            ServerEvent::RuntimeReady => match &self.inference {
                None => {
                    self.state = ServerState::Bind;
                    ServerAction::Bind
                },
                Some(i) => if same_letters(i.engine_type.as_str(), "sglang") {
                    self.state = ServerState::Adapter;
                    ServerAction::Connect(i.engine_endpoint.as_str().to_owned())
                } else {
                    let action = failed(
                        "WorkerInference adapter is not implemented for engine ",
                        i.engine_type.as_str(),
                    );
                    self.state = ServerState::Stopped;
                    action
                },
            },
            ServerEvent::RuntimeFailed(e) => {
                let mut message = "failed to create runtime: ".to_owned();
                message.append(e.as_str());
                self.state = ServerState::Stopped;
                ServerAction::GiveUp { message, signal: false }
            },
            ServerEvent::Connected => {
                self.state = ServerState::Bind;
                ServerAction::Bind
            },
            ServerEvent::ConnectFailed(e) => {
                let mut what = "failed to connect WorkerInference adapter to ".to_owned();
                match &self.inference {
                    Some(i) => what.append(i.engine_endpoint.as_str()),
                    None => what.append(""),
                }
                what.append(": ");
                self.state = ServerState::Stopped;
                failed(what.as_str(), e.as_str())
            },
            ServerEvent::Bound => {
                self.state = ServerState::Address;
                ServerAction::ReadAddress
            },
            ServerEvent::BindFailed(e) => {
                let mut what = "failed to bind ".to_owned();
                what.append(self.bind_address.as_str());
                what.append(": ");
                self.state = ServerState::Stopped;
                failed(what.as_str(), e.as_str())
            },
            ServerEvent::AddressRead(address) => {
                self.state = ServerState::Announce;
                ServerAction::Announce(address)
            },
            ServerEvent::AddressFailed(e) => {
                self.state = ServerState::Stopped;
                failed("failed to read listener address: ", e.as_str())
            },
            ServerEvent::Announced => {
                self.state = ServerState::Serving;
                self.running = true;
                ServerAction::Serve { inference: self.inference.is_some() }
            },
            ServerEvent::AnnounceLost => {
                self.state = ServerState::Stopped;
                ServerAction::Finish
            },
            ServerEvent::Served => {
                self.state = ServerState::Stopped;
                ServerAction::Finish
            },
            ServerEvent::ServeFailed(e) => {
                self.last_error = Some(e);
                self.state = ServerState::Stopped;
                ServerAction::Finish
            },
        }
    }
}

/// What the starter of a server learns: the address, or why there is none. `None`
/// stands for a server that said nothing in time.
pub fn startup_outcome(report: Option<Result<String, String>>) -> (r: Result<String, String>)
    ensures
        match report {
            Some(Ok(address)) => r matches Ok(a) && a == address,
            Some(Err(message)) => r matches Err(e) && e == message,
            None => r matches Err(e) && e@ == "WorkerControl server exited during startup"@,
        },
{
    match report {
        Some(r) => r,
        None => Err("WorkerControl server exited during startup".to_owned()),
    }
}

// ── How a server is stopped ─────────────────────────────────────────────────

/// What is left to do for a server.
#[derive(Debug, Clone, Copy, PartialEq, Eq, Structural)]
pub struct Handles {
    /// The server can be told to stop.
    pub shutdown: bool,
    /// The end of the server can be waited for.
    pub done: bool,
    /// The server's thread can be joined.
    pub thread: bool,
}

/// What stopping starts with.
#[derive(Debug, Clone, Copy, PartialEq, Eq, Structural)]
pub struct StopPlan {
    /// Tell the server to stop.
    pub signal: bool,
    /// Wait for its end.
    pub wait: bool,
}

/// How the wait ended.
#[derive(Debug, Clone, Copy, PartialEq, Eq, Structural)]
pub enum WaitOutcome {
    Ended,
    /// Whoever would have said so is gone.
    Disconnected,
    TimedOut,
}

/// Why stopping failed.
#[derive(Debug, Clone, Copy, PartialEq, Eq, Structural)]
pub enum StopError {
    /// The timeout is not finite, or not positive.
    BadTimeout,
    /// The server did not stop in time.
    Late,
    /// The server's thread panicked.
    Panicked,
}

impl StopError {
    /// The error's message.
    pub fn message(self) -> (r: &'static str)
        ensures
            r@ == match self {
                StopError::BadTimeout => "timeout_secs must be finite and positive"@,
                StopError::Late => "WorkerControl server did not stop before timeout"@,
                StopError::Panicked => "WorkerControl server thread panicked"@,
            },
    {
        match self {
            StopError::BadTimeout => "timeout_secs must be finite and positive",
            StopError::Late => "WorkerControl server did not stop before timeout",
            StopError::Panicked => "WorkerControl server thread panicked",
        }
    }
}

/// What stopping starts with.
pub open spec fn stops(
    pre: Handles,
    good_timeout: bool,
    post: Handles,
    r: Result<StopPlan, StopError>,
) -> bool {
    &&& good_timeout ==> {
        &&& r matches Ok(p) && p.signal == pre.shutdown && p.wait == pre.done
        &&& post == pre.begun()
    }
    &&& !good_timeout ==> {
        &&& r matches Err(e) && e == StopError::BadTimeout
        &&& post == pre
    }
}

/// What follows a wait: whether to join the thread, or that the server is late.
pub open spec fn has_waited(
    pre: Handles,
    outcome: Option<WaitOutcome>,
    post: Handles,
    r: Result<bool, StopError>,
) -> bool {
    &&& outcome == Some(WaitOutcome::TimedOut) ==> {
        &&& r matches Err(e) && e == StopError::Late
        &&& post == (Handles { done: true, ..pre })
    }
    &&& outcome != Some(WaitOutcome::TimedOut) ==> {
        &&& r matches Ok(join) && join == pre.thread
        &&& post == pre.joined()
    }
}

impl Handles {
    /// Begins to stop.
    pub open spec fn begun(self) -> Handles {
        Handles { shutdown: false, done: false, ..self }
    }

    /// After a wait in time.
    pub open spec fn joined(self) -> Handles {
        Handles { thread: false, ..self }
    }

    /// A server that runs.
    pub fn new() -> (r: Handles)
        ensures
            r == (Handles { shutdown: true, done: true, thread: true }),
    {
        Handles { shutdown: true, done: true, thread: true }
    }

    /// Begins to stop the server. With a bad timeout nothing happens.
    pub fn stop(&mut self, good_timeout: bool) -> (r: Result<StopPlan, StopError>)
        ensures
            stops(*old(self), good_timeout, *final(self), r),
    {
        if !good_timeout {
            return Err(StopError::BadTimeout);
        }
        let plan = StopPlan { signal: self.shutdown, wait: self.done };
        self.shutdown = false;
        self.done = false;
        Ok(plan)
    }

    /// Goes on after the wait, if there was one: whether to join the thread. A
    /// server that is late can be waited for again.
    pub fn waited(&mut self, outcome: Option<WaitOutcome>) -> (r: Result<bool, StopError>)
        ensures
            has_waited(*old(self), outcome, *final(self), r),
    {
        match outcome {
            Some(WaitOutcome::TimedOut) => {
                self.done = true;
                Err(StopError::Late)
            },
            _ => {
                let join: bool = self.thread;
                self.thread = false;
                Ok(join)
            },
        }
    }

    /// The server is told to stop as its owner goes.
    pub fn drop_signal(&mut self) -> (r: bool)
        ensures
            r == old(self).shutdown,
            *final(self) == (Handles { shutdown: false, ..*old(self) }),
    {
        let signal: bool = self.shutdown;
        self.shutdown = false;
        signal
    }
}

/// A server is told to stop once, and once stopped there is nothing left to do.
pub proof fn stopping_again_does_nothing(h: Handles)
    ensures
        ({
            let stopped = h.begun().joined();
            &&& !stopped.shutdown
            &&& !stopped.done
            &&& !stopped.thread
            &&& stopped.begun().joined() == stopped
        }),
        !(Handles { done: true, ..h.begun() }).shutdown,
{
}

/// A server that gives up, or that ends, is not running, and only one that told
/// its starter the address ever runs.
pub proof fn only_announced_servers_run(
    pre: ControlServer,
    event: ServerEvent,
    post: ControlServer,
    action: ServerAction,
)
    requires
        expects(pre.state, event),
        leads_to(pre, event, post, action),
    ensures
        post.running <==> event is Announced,
        action is GiveUp || action is Finish ==> !post.running && post.state
            == ServerState::Stopped,
        post.last_error != pre.last_error ==> pre.state == ServerState::Serving,
{
}

} // verus!
