//! What a gateway finds out of its workers, and what it tells of them.

use crate::gateway::detect::answers;
use crate::gateway::detect::starts_with_probe;
use crate::gateway::detect::verdict;
use crate::gateway::detect::ConnectionMode;
use crate::gateway::detect::DetectError;
use crate::gateway::detect::Probe;
use crate::gateway::detect::Reply;
use crate::gateway::detect::WorkerData;
use crate::gateway::transport::in_the_form_of;
use crate::gateway::transport::passes;
use crate::gateway::transport::refusal;
use crate::gateway::transport::EngineRequest;
use crate::gateway::transport::RuntimeType;
use crate::gateway::transport::StreamAction;
use crate::gateway::transport::StreamEvent;
use crate::gateway::transport::ZmqStream;
use crate::inference::worker;
use crate::status::Code;
use crate::status::Status;
use crate::text::middles_are_within;
use crate::text::within;
use vstd::prelude::*;

verus! {

/// The text is the scheme, and something behind it.
pub open spec fn has_scheme(url: Seq<char>, scheme: Seq<char>) -> bool {
    url.len() >= scheme.len() && url.take(scheme.len() as int) == scheme
}

proof fn starts_like(url: Seq<char>, scheme: Seq<char>)
    requires
        scheme.len() > 0,
    ensures
        has_scheme(url, scheme) ==> url[0] == scheme[0],
{
    if has_scheme(url, scheme) {
        assert(url.take(scheme.len() as int)[0] == url[0]);
    }
}

/// A scheme names its mode, with and without encryption; other texts name none.
pub proof fn schemes_name_their_mode(url: Seq<char>)
    ensures
        ({
            let mode = ConnectionMode::of_url(url);
            let web = has_scheme(url, "http://"@) || has_scheme(url, "https://"@);
            let rpc = has_scheme(url, "grpc://"@) || has_scheme(url, "grpcs://"@);
            let sockets = has_scheme(url, "ipc://"@);
            &&& web <==> mode == Some(ConnectionMode::Http)
            &&& rpc <==> mode == Some(ConnectionMode::Grpc)
            &&& sockets <==> mode == Some(ConnectionMode::Zmq)
        }),
{
    reveal_strlit("http://");
    reveal_strlit("https://");
    reveal_strlit("grpc://");
    reveal_strlit("grpcs://");
    reveal_strlit("ipc://");
    let (a, b, c, d, e) = ("http://"@, "https://"@, "grpc://"@, "grpcs://"@, "ipc://"@);
    assert(a.is_prefix_of(url) == has_scheme(url, a));
    assert(b.is_prefix_of(url) == has_scheme(url, b));
    assert(c.is_prefix_of(url) == has_scheme(url, c));
    assert(d.is_prefix_of(url) == has_scheme(url, d));
    assert(e.is_prefix_of(url) == has_scheme(url, e));
    starts_like(url, a);
    starts_like(url, b);
    starts_like(url, c);
    starts_like(url, d);
    starts_like(url, e);
}

/// The URL where a worker is controlled: its own, or the worker's.
pub open spec fn controlled_at(data: WorkerData, url: Seq<char>) -> bool {
    if data.control_url is Some {
        url == data.control_url->0@
    } else {
        url == data.url@
    }
}

/// A probe waits as long as the worker says, or as the application says where the worker
/// says nothing.
pub proof fn probes_wait_as_long_as_told(pre: WorkerData, post: WorkerData, probe: Probe)
    requires
        starts_with_probe(pre, post, Ok(probe)),
    ensures
        ({
            let secs = match probe {
                Probe::Control { url: _, timeout_secs } => Some(timeout_secs),
                Probe::One { mode: _, url: _, timeout_secs } => Some(timeout_secs),
                Probe::Both { url: _, timeout_secs } => Some(timeout_secs),
                _ => None,
            };
            secs is Some ==> if pre.timeout_secs is Some {
                secs == pre.timeout_secs
            } else {
                secs == pre.default_timeout_secs
            }
        }),
{
}

/// What is probed follows from what is known: nothing of a remote worker, the control
/// endpoint of one with the gateway's own protocol, the protocol of a scheme, or both; and
/// only a scheme that needs no probe settles the mode at once.
pub proof fn probes_suit_the_worker(pre: WorkerData, post: WorkerData, probe: Probe)
    requires
        starts_with_probe(pre, post, Ok(probe)),
    ensures
        ({
            let mode = ConnectionMode::of_url(pre.url@);
            &&& probe is Skip <==> !pre.local
            &&& probe is Control <==> pre.local && pre.smg
            &&& probe is Known <==> pre.local && !pre.smg && mode == Some(ConnectionMode::Zmq)
            &&& probe is Both <==> pre.local && !pre.smg && mode is None
            &&& probe is One <==> pre.local && !pre.smg && (mode == Some(ConnectionMode::Http)
                || mode == Some(ConnectionMode::Grpc))
            &&& probe matches Probe::One { mode: m, url, timeout_secs } ==> Some(m) == mode && url@
                == pre.url@
            &&& probe matches Probe::Both { url, timeout_secs } ==> url@ == pre.url@
            &&& probe matches Probe::Control { url, timeout_secs } ==> controlled_at(pre, url@)
            &&& probe is Known ==> post.connection_mode == Some(ConnectionMode::Zmq)
            &&& probe !is Known ==> post.connection_mode == pre.connection_mode
            &&& post.url == pre.url && post.control_url == pre.control_url && post.smg == pre.smg
            &&& post.local == pre.local && post.timeout_secs == pre.timeout_secs
            &&& post.default_timeout_secs == pre.default_timeout_secs
        }),
{
}

/// The step fails at once for a local worker without an application, and for one with the
/// gateway's own protocol under a scheme that is not gRPC's; it names the URL then.
pub proof fn steps_fail_for_cause(
    pre: WorkerData,
    post: WorkerData,
    r: Result<Probe, DetectError>,
    control: Seq<char>,
)
    requires
        starts_with_probe(pre, post, r),
        controlled_at(pre, control),
    ensures
        ({
            let of_url = ConnectionMode::of_url(pre.url@);
            let of_control = ConnectionMode::of_url(control);
            let rpc = Some(ConnectionMode::Grpc);
            &&& r is Err <==> pre.local && (pre.default_timeout_secs is None || pre.smg && (of_url
                is Some && of_url != rpc || of_control is Some && of_control != rpc))
            &&& r is Err ==> post == pre
            &&& (r matches Err(DetectError::Missing(_))) <==> pre.local && pre.default_timeout_secs
                is None
            &&& r matches Err(DetectError::Failed(m)) ==> within(pre.url@, m@) || within(
                control,
                m@,
            )
            &&& r matches Err(DetectError::Failed(m)) ==> (of_url is Some && of_url != rpc
                ==> within(pre.url@, m@))
        }),
{
    if r matches Err(DetectError::Failed(m)) {
        let a = ConnectionMode::of_url(pre.url@)->0.named();
        let b = ConnectionMode::of_url(control)->0.named();
        middles_are_within(
            "SMG worker "@,
            pre.url@,
            " must use a grpc:// or grpcs:// URL, got "@ + a,
        );
        assert("SMG worker "@ + pre.url@ + (" must use a grpc:// or grpcs:// URL, got "@ + a)
            =~= "SMG worker "@ + pre.url@ + " must use a grpc:// or grpcs:// URL, got "@ + a);
        middles_are_within(
            "SMG Worker control endpoint "@,
            control,
            " must use grpc:// or grpcs://, got "@ + b,
        );
        assert("SMG Worker control endpoint "@ + control + (" must use grpc:// or grpcs://, got "@
            + b) =~= "SMG Worker control endpoint "@ + control
            + " must use grpc:// or grpcs://, got "@ + b);
    }
}

/// A worker counts as reached where a probe of it was answered, over the protocol that was
/// answered; a failure names what was asked and says why nobody answered.
pub proof fn replies_decide(data: WorkerData, reply: Reply, control: Seq<char>)
    requires
        answers(data, reply),
        controlled_at(data, control),
    ensures
        ({
            let v = verdict(data, reply);
            match reply {
                Reply::Control(found) => {
                    &&& found is Ok <==> v == Ok::<ConnectionMode, Seq<char>>(ConnectionMode::Grpc)
                    &&& found matches Err(e) ==> v is Err && within(e@, v->Err_0) && within(
                        control,
                        v->Err_0,
                    )
                },
                Reply::One(found) => {
                    &&& found is Ok ==> v is Ok && ConnectionMode::of_url(data.url@) == Some(
                        v->Ok_0,
                    )
                    &&& found matches Err(e) ==> v is Err && within(e@, v->Err_0) && within(
                        data.url@,
                        v->Err_0,
                    )
                },
                Reply::Both { http, grpc } => {
                    &&& v is Ok <==> http is Ok || grpc is Ok
                    &&& v is Ok ==> v->Ok_0 == if http is Ok {
                        ConnectionMode::Http
                    } else {
                        ConnectionMode::Grpc
                    }
                    &&& v is Err ==> within(data.url@, v->Err_0) && within(
                        http->Err_0@,
                        v->Err_0,
                    ) && within(grpc->Err_0@, v->Err_0)
                },
            }
        }),
{
    match reply {
        Reply::Control(Err(e)) => {
            let a = "SMG Worker control-plane handshake failed for "@;
            middles_are_within(a, control, ": "@ + e@);
            middles_are_within(a + control + ": "@, e@, Seq::empty());
            assert(a + control + (": "@ + e@) =~= a + control + ": "@ + e@);
        },
        Reply::One(Err(e)) => {
            let a = (ConnectionMode::of_url(data.url@)->0).named()
                + " health check failed for explicitly configured worker URL "@;
            middles_are_within(a, data.url@, ": "@ + e@);
            middles_are_within(a + data.url@ + ": "@, e@, Seq::empty());
            assert(a + data.url@ + (": "@ + e@) =~= a + data.url@ + ": "@ + e@);
        },
        Reply::Both { http: Err(h), grpc: Err(g) } => {
            let a = "Both HTTP and gRPC health checks failed for "@;
            let b = a + data.url@ + ": HTTP: "@;
            let all = b + h@ + ", gRPC: "@ + g@;
            middles_are_within(a, data.url@, ": HTTP: "@ + h@ + ", gRPC: "@ + g@);
            assert(a + data.url@ + (": HTTP: "@ + h@ + ", gRPC: "@ + g@) =~= all);
            middles_are_within(b, h@, ", gRPC: "@ + g@);
            assert(b + h@ + (", gRPC: "@ + g@) =~= all);
            middles_are_within(b + h@ + ", gRPC: "@, g@, Seq::empty());
        },
        _ => {},
    }
}

/// Sockets are bound for the two kinds of engine that speak over them, unless there is no
/// engine; a refusal names the engine.
pub proof fn sockets_are_refused_for_cause(runtime: RuntimeType, engine_count: usize)
    ensures
        refusal(runtime, engine_count) is Some <==> engine_count == 0 || !(runtime is Vllm
            || runtime is TokenSpeed),
        runtime matches RuntimeType::Other(name) ==> within(
            name@,
            refusal(runtime, engine_count)->0,
        ),
{
    if let RuntimeType::Other(name) = runtime {
        middles_are_within(
            "Worker ZMQ transport supports only vllm and tokenspeed, not "@,
            name@,
            Seq::empty(),
        );
    }
}

/// A stream passes its items on until it fails; then the error goes out, once, and nothing
/// after it. A stream that ends or is cancelled only ends.
pub proof fn failed_streams_end(
    pre: ZmqStream,
    event: StreamEvent,
    mid: ZmqStream,
    action: StreamAction,
    next: StreamEvent,
    post: ZmqStream,
    then_action: StreamAction,
)
    requires
        passes(pre, event, mid, action),
        passes(mid, next, post, then_action),
    ensures
        !pre.done ==> (action == StreamAction::Pass <==> event is Item),
        !pre.done ==> (action == StreamAction::PassError <==> event is Failed),
        pre.done ==> action == StreamAction::End,
        action == StreamAction::PassError ==> then_action == StreamAction::End && post.done,
        mid.done <==> pre.done || event is Failed,
{
}

/// A request reaches an engine whole, in the engine's own form; for other engines there is
/// none, and they are named.
pub proof fn requests_take_the_engines_form(
    runtime: RuntimeType,
    request: worker::GenerateRequest,
    r: Result<EngineRequest, Status>,
)
    requires
        in_the_form_of(runtime, request, r),
    ensures
        r is Ok <==> runtime is Vllm || runtime is TokenSpeed,
        runtime is Vllm ==> (r matches Ok(EngineRequest::Vllm(q)) && q == request),
        runtime is TokenSpeed ==> (r matches Ok(EngineRequest::TokenSpeed(q)) && q.request_id
            == request.request_id && q.stream == request.stream && (request.tokenized is Some
            <==> q.tokenized is Some) && (request.tokenized matches Some(t)
            ==> q.tokenized->0.input_ids == t.input_ids)),
        runtime matches RuntimeType::Other(name) ==> (r matches Err(e) && e.code
            == Code::FailedPrecondition && within(name@, e.message@)),
{
    if let RuntimeType::Other(name) = runtime {
        middles_are_within("Worker ZMQ transport is unavailable for "@, name@, Seq::empty());
    }
}

} // verus!
