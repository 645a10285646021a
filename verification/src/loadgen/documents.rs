//! What a run's documents tell.

use super::report::errors_json;
use super::report::gateways_json;
use super::report::optional_number;
use super::report::RequestRecord;
use crate::json::JsonView;
use crate::mock::http::canned_usage;
use crate::mock::replies::has;
use crate::mock::replies::whole;
use crate::mock::sim::request_id_of;
use crate::text::decimal;
use crate::text::hexadecimal;
use crate::text::numbers_are_told_apart;
use crate::text::written_digits_are_read;
use vstd::prelude::*;

verus! {

/// A number that may be missing, as a document.
pub open spec fn maybe(n: Option<u64>) -> JsonView {
    if n is Some {
        whole(n->0)
    } else {
        JsonView::Null
    }
}

/// A record is told whole: every figure under its name, and null for what is not known.
pub proof fn records_are_told_whole(r: RequestRecord, ttft_ms: JsonView, e2e_ms: JsonView)
    ensures
        ({
            let d = r.as_json(ttft_ms, e2e_ms);
            &&& has(d, "turn"@, whole(r.turn as u64))
            &&& has(d, "session"@, whole(r.session))
            &&& has(d, "key"@, JsonView::Text(r.key@))
            &&& has(d, "smg"@, whole(r.smg as u64))
            &&& has(d, "worker_port"@, maybe(r.worker_port))
            &&& has(d, "prompt_tokens"@, whole(r.prompt_tokens as u64))
            &&& has(d, "cached_tokens"@, maybe(r.cached_tokens))
            &&& has(d, "completion_tokens"@, maybe(r.completion_tokens))
            &&& has(d, "max_new"@, whole(r.max_new as u64))
            &&& has(d, "ttft_ms"@, ttft_ms)
            &&& has(d, "e2e_ms"@, e2e_ms)
            &&& has(d, "status"@, whole(r.status as u64))
            &&& has(d, "start_ms"@, whole(r.start_ms))
        }),
{
    reveal_strlit("turn");
    reveal_strlit("session");
    reveal_strlit("key");
    reveal_strlit("smg");
    reveal_strlit("worker_port");
    reveal_strlit("prompt_tokens");
    reveal_strlit("cached_tokens");
    reveal_strlit("completion_tokens");
    reveal_strlit("max_new");
    reveal_strlit("ttft_ms");
    reveal_strlit("e2e_ms");
    reveal_strlit("status");
    reveal_strlit("start_ms");
    assert("turn"@.len() == 4 && "session"@.len() == 7 && "key"@.len() == 3 && "smg"@.len() == 3);
    assert("worker_port"@.len() == 11 && "prompt_tokens"@.len() == 13);
    assert("cached_tokens"@.len() == 13 && "completion_tokens"@.len() == 17);
    assert("max_new"@.len() == 7 && "ttft_ms"@.len() == 7 && "e2e_ms"@.len() == 6);
    assert("status"@.len() == 6 && "start_ms"@.len() == 8);
    assert("key"@[0] == 'k' && "smg"@[0] == 's' && "prompt_tokens"@[0] == 'p');
    assert("cached_tokens"@[0] == 'c' && "session"@[0] == 's' && "max_new"@[0] == 'm');
    assert("ttft_ms"@[0] == 't' && "e2e_ms"@[0] == 'e' && "status"@[0] == 's');
    assert(optional_number(r.worker_port) == maybe(r.worker_port));
}

/// Failures are listed under their status, with their number; nothing else is listed.
pub proof fn failures_are_listed(errors: Seq<(u64, u64)>, name: Seq<char>)
    requires
        forall|i: int, j: int|
            0 <= i < j < errors.len() ==> (#[trigger] errors[i]).0 != (#[trigger] errors[j]).0,
    ensures
        forall|i: int|
            #![trigger errors[i]]
            0 <= i < errors.len() ==> has(
                JsonView::Object(errors_json(errors)),
                decimal(errors[i].0 as nat),
                whole(errors[i].1),
            ),
        errors_json(errors).contains_key(name) ==> exists|i: int|
            0 <= i < errors.len() && name == decimal((#[trigger] errors[i]).0 as nat),
    decreases errors.len(),
{
    if errors.len() > 0 {
        let init = errors.drop_last();
        let last = errors.last();
        assert forall|i: int, j: int| 0 <= i < j < init.len() implies (#[trigger] init[i]).0 != (
        #[trigger] init[j]).0 by {
            assert(errors[i].0 != errors[j].0);
        }
        failures_are_listed(init, name);
        assert forall|i: int| #![trigger errors[i]] 0 <= i < errors.len() implies has(
            JsonView::Object(errors_json(errors)),
            decimal(errors[i].0 as nat),
            whole(errors[i].1),
        ) by {
            if i < init.len() {
                assert(init[i] == errors[i]);
                assert(errors[i].0 != errors[errors.len() - 1].0);
                if decimal(errors[i].0 as nat) == decimal(last.0 as nat) {
                    numbers_are_told_apart(errors[i].0 as nat, last.0 as nat);
                }
            }
        }
        if errors_json(errors).contains_key(name) {
            if name == decimal(last.0 as nat) {
                assert(errors[errors.len() - 1].0 == last.0);
            } else {
                let i = choose|i: int|
                    0 <= i < init.len() && name == decimal((#[trigger] init[i]).0 as nat);
                assert(errors[i] == init[i]);
            }
        }
    }
}

/// Gateways are listed in their order, each with what it got.
pub proof fn gateways_are_listed(urls: Seq<String>, requests: Seq<u64>, i: int)
    requires
        requests.len() == urls.len(),
    ensures
        ({
            let d = gateways_json(urls, requests);
            &&& d is Array && d->Array_0.len() == urls.len()
            &&& 0 <= i < urls.len() ==> has(d->Array_0[i], "url"@, JsonView::Text(urls[i]@)) && has(
                d->Array_0[i],
                "requests"@,
                whole(requests[i]),
            )
        }),
{
    reveal_strlit("url");
    reveal_strlit("requests");
    assert("url"@.len() == 3 && "requests"@.len() == 8);
}

/// A canned answer counts one token of prompt, and as many as were asked for of output.
pub proof fn canned_counts_add_up(n: u32)
    ensures
        has(canned_usage(n), "prompt_tokens"@, whole(1)),
        has(canned_usage(n), "completion_tokens"@, whole(n as u64)),
        has(canned_usage(n), "total_tokens"@, whole((n + 1) as u64)),
{
    reveal_strlit("prompt_tokens");
    reveal_strlit("completion_tokens");
    reveal_strlit("total_tokens");
    assert("prompt_tokens"@.len() == 13 && "completion_tokens"@.len() == 17);
    assert("total_tokens"@.len() == 12);
}

/// Requests are named after their worker and their seed: no two are named alike.
pub proof fn requests_have_their_own_names(p: u16, a: u64, q: u16, b: u64)
    ensures
        request_id_of(p, a) == request_id_of(q, b) ==> p == q && a == b,
{
    if request_id_of(p, a) == request_id_of(q, b) {
        reveal_strlit("sim-");
        reveal_strlit("-");
        let s = "sim-"@;
        let (m, n) = (decimal(p as nat), decimal(q as nat));
        let (x, y) = (hexadecimal(a as nat, 16), hexadecimal(b as nat, 16));
        assert(vstd::arithmetic::power::pow(16, 16) == 0x1_0000_0000_0000_0000) by {
            reveal_with_fuel(vstd::arithmetic::power::pow, 17);
        }
        written_digits_are_read(a as nat, 16);
        written_digits_are_read(b as nat, 16);
        let (u, v) = (s + m + "-"@ + x, s + n + "-"@ + y);
        assert(u.len() == s.len() + m.len() + 17 && v.len() == s.len() + n.len() + 17);
        assert(m =~= n) by {
            assert forall|i: int| 0 <= i < m.len() implies m[i] == n[i] by {
                assert(u[s.len() + i] == m[i] && v[s.len() + i] == n[i]);
            }
        }
        numbers_are_told_apart(p as nat, q as nat);
        let k = (s.len() + m.len() + 1) as int;
        assert(u.skip(k) =~= x);
        assert(v.skip(k) =~= y);
    }
}

} // verus!
