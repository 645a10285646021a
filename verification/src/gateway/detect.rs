//! Whether a worker is reached over HTTP or over gRPC.
//!
//! Explicit URL schemes are honored. For a bare host and port both protocols are
//! probed, and HTTP wins if both answer.

use crate::text;
use vstd::prelude::*;

verus! {

/// How a worker is reached.
#[derive(Debug, Clone, Copy, PartialEq, Eq, Structural)]
pub enum ConnectionMode {
    Http,
    Grpc,
    /// Sockets that the gateway binds and the engine dials.
    Zmq,
}

impl ConnectionMode {
    /// The mode's name.
    pub open spec fn named(self) -> Seq<char> {
        match self {
            ConnectionMode::Http => "HTTP"@,
            ConnectionMode::Grpc => "gRPC"@,
            ConnectionMode::Zmq => "ZMQ"@,
        }
    }

    /// The mode that a URL's scheme asks for.
    pub open spec fn of_url(url: Seq<char>) -> Option<ConnectionMode> {
        if begins(url, "http://"@) || begins(url, "https://"@) {
            Some(ConnectionMode::Http)
        } else if begins(url, "grpc://"@) || begins(url, "grpcs://"@) {
            Some(ConnectionMode::Grpc)
        } else if begins(url, "ipc://"@) {
            Some(ConnectionMode::Zmq)
        } else {
            None
        }
    }

    /// The mode's name.
    pub fn name(self) -> (r: &'static str)
        ensures
            r@ == self.named(),
    {
        match self {
            ConnectionMode::Http => "HTTP",
            ConnectionMode::Grpc => "gRPC",
            ConnectionMode::Zmq => "ZMQ",
        }
    }

    /// The mode that a URL's scheme asks for: none for a bare host and port.
    pub fn from_url(url: &str) -> (r: Option<ConnectionMode>)
        ensures
            r == ConnectionMode::of_url(url@),
    {
        if text::starts_with(url, "http://") || text::starts_with(url, "https://") {
            Some(ConnectionMode::Http)
        } else if text::starts_with(url, "grpc://") || text::starts_with(url, "grpcs://") {
            Some(ConnectionMode::Grpc)
        } else if text::starts_with(url, "ipc://") {
            Some(ConnectionMode::Zmq)
        } else {
            None
        }
    }
}

/// The text begins with the prefix.
pub open spec fn begins(s: Seq<char>, prefix: Seq<char>) -> bool {
    prefix.is_prefix_of(s)
}

/// What is known of a worker that registers.
pub struct WorkerData {
    /// Whether the worker is a local one.
    pub local: bool,
    /// The timeout of a health check, where the application is at hand.
    pub default_timeout_secs: Option<u64>,
    pub url: String,
    /// The timeout of a health check, where the worker sets it.
    pub timeout_secs: Option<u64>,
    /// Whether the worker speaks the gateway's own protocol.
    pub smg: bool,
    /// Where such a worker is controlled, if not at `url`.
    pub control_url: Option<String>,
    pub connection_mode: Option<ConnectionMode>,
}

impl WorkerData {
    /// Where the worker is controlled.
    pub open spec fn control(&self) -> Seq<char> {
        match self.control_url {
            Some(u) => u@,
            None => self.url@,
        }
    }

    /// The timeout of a probe.
    pub open spec fn timeout(&self) -> u64 {
        match self.timeout_secs {
            Some(t) => t,
            None => match self.default_timeout_secs {
                Some(t) => t,
                None => 0,
            },
        }
    }

    /// Everything but the connection mode is as before.
    pub open spec fn same_worker(&self, other: WorkerData) -> bool {
        &&& self.local == other.local
        &&& self.default_timeout_secs == other.default_timeout_secs
        &&& self.url == other.url
        &&& self.timeout_secs == other.timeout_secs
        &&& self.smg == other.smg
        &&& self.control_url == other.control_url
    }
}

/// Why no connection mode was found.
pub enum DetectError {
    /// Something that the step needs is not there.
    Missing(String),
    /// The step failed, with a message.
    Failed(String),
}

/// The error's message.
pub open spec fn says(e: DetectError, message: Seq<char>) -> bool {
    e matches DetectError::Failed(m) && m@ == message
}

/// What the step does.
pub enum Probe {
    /// Nothing: the step is not for this worker.
    Skip,
    /// Nothing: the mode is known.
    Known,
    /// Shake hands with the worker's control endpoint.
    Control { url: String, timeout_secs: u64 },
    /// Check the worker's health over one protocol.
    One { mode: ConnectionMode, url: String, timeout_secs: u64 },
    /// Check the worker's health over HTTP and over gRPC.
    Both { url: String, timeout_secs: u64 },
}

/// What probes found: each is reached, or it is said why not.
pub enum Reply {
    Control(Result<(), String>),
    One(Result<(), String>),
    Both { http: Result<(), String>, grpc: Result<(), String> },
}

/// The message for a worker with the gateway's own protocol but another scheme.
pub open spec fn wrong_scheme(url: Seq<char>, mode: ConnectionMode) -> Seq<char> {
    "SMG worker "@ + url + " must use a grpc:// or grpcs:// URL, got "@ + mode.named()
}

/// The message for such a worker whose control endpoint has another scheme.
pub open spec fn wrong_control_scheme(url: Seq<char>, mode: ConnectionMode) -> Seq<char> {
    "SMG Worker control endpoint "@ + url + " must use grpc:// or grpcs://, got "@ + mode.named()
}

/// The scheme is there, and it is not gRPC.
pub open spec fn other_than_grpc(url: Seq<char>) -> bool {
    ConnectionMode::of_url(url) matches Some(m) && m != ConnectionMode::Grpc
}

/// What the step starts with.
pub open spec fn starts_with_probe(
    pre: WorkerData,
    post: WorkerData,
    r: Result<Probe, DetectError>,
) -> bool {
    if !pre.local {
        r matches Ok(Probe::Skip) && post == pre
    } else if pre.default_timeout_secs is None {
        &&& r matches Err(DetectError::Missing(what)) && what@ == "app_context"@
        &&& post == pre
    } else if pre.smg {
        &&& post == pre
        &&& if other_than_grpc(pre.url@) {
            r matches Err(e) && says(
                e,
                wrong_scheme(pre.url@, ConnectionMode::of_url(pre.url@)->0),
            )
        } else if other_than_grpc(pre.control()) {
            r matches Err(e) && says(
                e,
                wrong_control_scheme(pre.control(), ConnectionMode::of_url(pre.control())->0),
            )
        } else {
            r matches Ok(Probe::Control { url, timeout_secs }) && url@ == pre.control()
                && timeout_secs == pre.timeout()
        }
    } else {
        match ConnectionMode::of_url(pre.url@) {
            Some(ConnectionMode::Zmq) => {
                &&& r matches Ok(Probe::Known)
                &&& post.same_worker(pre)
                &&& post.connection_mode == Some(ConnectionMode::Zmq)
            },
            Some(m) => {
                &&& r matches Ok(Probe::One { mode, url, timeout_secs }) && mode == m && url@
                    == pre.url@ && timeout_secs == pre.timeout()
                &&& post == pre
            },
            None => {
                &&& r matches Ok(Probe::Both { url, timeout_secs }) && url@ == pre.url@
                    && timeout_secs == pre.timeout()
                &&& post == pre
            },
        }
    }
}

/// The reply is one to the probe that the step starts with.
pub open spec fn answers(data: WorkerData, reply: Reply) -> bool {
    &&& data.local
    &&& data.default_timeout_secs is Some
    &&& match reply {
        Reply::Control(_) => data.smg,
        Reply::One(_) => !data.smg && ConnectionMode::of_url(data.url@) is Some,
        Reply::Both { http, grpc } => !data.smg && ConnectionMode::of_url(data.url@) is None,
    }
}

/// What the replies say: a mode, or the message of a failure.
pub open spec fn verdict(data: WorkerData, reply: Reply) -> Result<ConnectionMode, Seq<char>> {
    match reply {
        Reply::Control(Ok(_)) => Ok(ConnectionMode::Grpc),
        Reply::Control(Err(e)) => Err(
            "SMG Worker control-plane handshake failed for "@ + data.control() + ": "@ + e@,
        ),
        Reply::One(Ok(_)) => Ok(ConnectionMode::of_url(data.url@)->0),
        Reply::One(Err(e)) => Err(
            (ConnectionMode::of_url(data.url@)->0).named()
                + " health check failed for explicitly configured worker URL "@ + data.url@ + ": "@
                + e@,
        ),
        Reply::Both { http: Ok(_), grpc: _ } => Ok(ConnectionMode::Http),
        Reply::Both { http: Err(_), grpc: Ok(_) } => Ok(ConnectionMode::Grpc),
        Reply::Both { http: Err(h), grpc: Err(g) } => Err(
            "Both HTTP and gRPC health checks failed for "@ + data.url@ + ": HTTP: "@ + h@
                + ", gRPC: "@ + g@,
        ),
    }
}

/// The step that finds out how a worker is reached.
pub struct DetectConnectionModeStep;

impl DetectConnectionModeStep {
    /// Decides what to probe. A worker with the gateway's own protocol says so
    /// itself: no engine is probed to infer it. Where the gateway binds sockets
    /// there is nothing to probe.
    pub fn execute(&self, data: &mut WorkerData) -> (r: Result<Probe, DetectError>)
        ensures
            starts_with_probe(*old(data), *final(data), r),
    {
        if !data.local {
            return Ok(Probe::Skip);
        }
        let fallback: u64 = match data.default_timeout_secs {
            Some(t) => t,
            None => {
                return Err(DetectError::Missing("app_context".to_owned()));
            },
        };
        let timeout_secs: u64 = match data.timeout_secs {
            Some(t) => t,
            None => fallback,
        };
        let url = data.url.as_str();
        if data.smg {
            match ConnectionMode::from_url(url) {
                Some(mode) => if mode != ConnectionMode::Grpc {
                    let mut m = "SMG worker ".to_owned();
                    m.append(url);
                    m.append(" must use a grpc:// or grpcs:// URL, got ");
                    m.append(mode.name());
                    return Err(DetectError::Failed(m));
                },
                None => {},
            }
            let control: &str = match &data.control_url {
                Some(u) => u.as_str(),
                None => url,
            };
            match ConnectionMode::from_url(control) {
                Some(mode) => if mode != ConnectionMode::Grpc {
                    let mut m = "SMG Worker control endpoint ".to_owned();
                    m.append(control);
                    m.append(" must use grpc:// or grpcs://, got ");
                    m.append(mode.name());
                    return Err(DetectError::Failed(m));
                },
                None => {},
            }
            return Ok(Probe::Control { url: control.to_owned(), timeout_secs });
        }
        match ConnectionMode::from_url(url) {
            Some(ConnectionMode::Zmq) => {
                data.connection_mode = Some(ConnectionMode::Zmq);
                Ok(Probe::Known)
            },
            Some(mode) => Ok(Probe::One { mode, url: url.to_owned(), timeout_secs }),
            None => Ok(Probe::Both { url: url.to_owned(), timeout_secs }),
        }
    }

    /// Decides what the replies mean.
    pub fn conclude(&self, data: &mut WorkerData, reply: &Reply) -> (r: Result<
        ConnectionMode,
        DetectError,
    >)
        requires
            answers(*old(data), *reply),
        ensures
            match verdict(*old(data), *reply) {
                Ok(mode) => {
                    &&& r matches Ok(m) && m == mode
                    &&& final(data).connection_mode == Some(mode)
                    &&& final(data).same_worker(*old(data))
                },
                Err(message) => {
                    &&& r matches Err(e) && says(e, message)
                    &&& *final(data) == *old(data)
                },
            },
    {
        let mode: ConnectionMode = match reply {
            Reply::Control(Ok(_)) => ConnectionMode::Grpc,
            Reply::Control(Err(e)) => {
                let mut m = "SMG Worker control-plane handshake failed for ".to_owned();
                match &data.control_url {
                    Some(u) => m.append(u.as_str()),
                    None => m.append(data.url.as_str()),
                }
                m.append(": ");
                m.append(e.as_str());
                return Err(DetectError::Failed(m));
            },
            Reply::One(found) => match ConnectionMode::from_url(data.url.as_str()) {
                Some(mode) => match found {
                    Ok(_) => mode,
                    Err(e) => {
                        let mut m = mode.name().to_owned();
                        m.append(" health check failed for explicitly configured worker URL ");
                        m.append(data.url.as_str());
                        m.append(": ");
                        m.append(e.as_str());
                        return Err(DetectError::Failed(m));
                    },
                },
                None => ConnectionMode::Http,
            },
            Reply::Both { http, grpc } => match http {
                Ok(_) => ConnectionMode::Http,
                Err(h) => match grpc {
                    Ok(_) => ConnectionMode::Grpc,
                    Err(g) => {
                        let mut m = "Both HTTP and gRPC health checks failed for ".to_owned();
                        m.append(data.url.as_str());
                        m.append(": HTTP: ");
                        m.append(h.as_str());
                        m.append(", gRPC: ");
                        m.append(g.as_str());
                        return Err(DetectError::Failed(m));
                    },
                },
            },
        };
        data.connection_mode = Some(mode);
        Ok(mode)
    }

    /// Every failure of the step may be tried again.
    pub fn is_retryable(&self, _error: &DetectError) -> (r: bool)
        ensures
            r,
    {
        true
    }
}

/// HTTP wins: where both protocols answer, the worker counts as an HTTP one, and
/// gRPC is found only where HTTP does not answer.
pub proof fn http_takes_priority(data: WorkerData, http: Result<(), String>, grpc: Result<(), String>)
    ensures
        verdict(data, Reply::Both { http, grpc }) == Ok::<ConnectionMode, Seq<char>>(
            ConnectionMode::Http,
        ) <==> http is Ok,
        verdict(data, Reply::Both { http, grpc }) == Ok::<ConnectionMode, Seq<char>>(
            ConnectionMode::Grpc,
        ) <==> http is Err && grpc is Ok,
{
}

/// An explicit scheme is honored: the step never finds another mode.
pub proof fn explicit_schemes_are_honored(data: WorkerData, reply: Reply, mode: ConnectionMode)
    requires
        answers(data, reply),
        ConnectionMode::of_url(data.url@) is Some,
        !data.smg,
        verdict(data, reply) == Ok::<ConnectionMode, Seq<char>>(mode),
    ensures
        ConnectionMode::of_url(data.url@) == Some(mode),
{
}

/// A worker with the gateway's own protocol is only ever asked at its control
/// endpoint, and only over gRPC: no engine is probed to infer what it is.
pub proof fn own_workers_are_asked_at_their_control_endpoint(
    pre: WorkerData,
    post: WorkerData,
    probe: Probe,
)
    requires
        starts_with_probe(pre, post, Ok(probe)),
        pre.local,
        pre.smg,
    ensures
        probe matches Probe::Control { url, timeout_secs } && url@ == pre.control(),
        !other_than_grpc(pre.url@),
        !other_than_grpc(pre.control()),
{
}

} // verus!
