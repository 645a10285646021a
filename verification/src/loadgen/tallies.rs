//! A run's summary, held against its records one by one.

use super::report::anchors;
use super::report::cached_part;
use super::report::counts;
use super::report::counts_ok;
use super::report::failure;
use super::report::first_port;
use super::report::found;
use super::report::occurrences;
use super::report::picked;
use super::report::reunion;
use super::report::summary_of;
use super::report::warmup_end;
use super::report::RequestRecord;
use super::report::Summary;
use super::report::TurnBlock;
use vstd::prelude::*;

verus! {

/// How many of the first `n` are so.
pub open spec fn tally(n: int, so: spec_fn(int) -> bool) -> int
    decreases n,
{
    if n <= 0 {
        0
    } else {
        tally(n - 1, so) + if so(n - 1) {
            1int
        } else {
            0
        }
    }
}

/// When the request ended, in milliseconds.
pub open spec fn end_of(r: RequestRecord) -> int {
    if r.start_ms + r.elapsed_ms > u64::MAX {
        u64::MAX as int
    } else {
        r.start_ms + r.elapsed_ms
    }
}

/// When the warm-up ends.
pub open spec fn warm_from(start_ms: u64, warmup_secs: u64) -> int {
    if start_ms + warmup_secs * 1000 > u64::MAX {
        u64::MAX as int
    } else {
        start_ms + warmup_secs * 1000
    }
}

/// The request ended after the warm-up.
pub open spec fn is_measured(r: RequestRecord, start_ms: u64, warmup_secs: u64) -> bool {
    end_of(r) >= warm_from(start_ms, warmup_secs)
}

/// The request succeeded.
pub open spec fn is_fine(r: RequestRecord) -> bool {
    r.status >= 200 && r.status <= 299
}

/// A request of the turn that ended after the warm-up and succeeded.
pub open spec fn is_fine_turn(r: RequestRecord, start_ms: u64, warmup_secs: u64, turn: u8) -> bool {
    is_measured(r, start_ms, warmup_secs) && is_fine(r) && r.turn == turn
}

/// A request of the turn that has a ratio: it sent a prompt, and knows how much of it was
/// cached, be it nothing.
pub open spec fn has_ratio(r: RequestRecord, start_ms: u64, warmup_secs: u64, turn: u8) -> bool {
    is_fine_turn(r, start_ms, warmup_secs, turn) && r.prompt_tokens > 0 && r.cached_tokens is Some
}

/// The list has the places that are so, in order, and no others.
pub open spec fn places(v: Seq<usize>, n: int, so: spec_fn(int) -> bool) -> bool {
    &&& v.len() == tally(n, so)
    &&& forall|i: int| 0 <= i < n && #[trigger] so(i) ==> 0 <= tally(i, so) < v.len() && v[tally(i, so)]
        == i
}

proof fn tallies_grow(i: int, n: int, so: spec_fn(int) -> bool)
    requires
        0 <= i <= n,
    ensures
        0 <= tally(i, so) <= tally(n, so) <= n,
        i < n && so(i) ==> tally(i, so) < tally(n, so),
    decreases n,
{
    if i < n {
        tallies_grow(i, n - 1, so);
    } else if n > 0 {
        tallies_grow(n - 1, n - 1, so);
    }
}

proof fn tallies_agree(n: int, a: spec_fn(int) -> bool, b: spec_fn(int) -> bool)
    requires
        forall|i: int| 0 <= i < n ==> #[trigger] a(i) == b(i),
    ensures
        tally(n, a) == tally(n, b),
    decreases n,
{
    if n > 0 {
        tallies_agree(n - 1, a, b);
        assert(a(n - 1) == b(n - 1));
    }
}

/// What is picked are the places that are so.
proof fn picks_are_places(n: nat, p: spec_fn(int) -> bool, so: spec_fn(int) -> bool)
    requires
        n <= usize::MAX,
        forall|i: int| 0 <= i < n ==> #[trigger] so(i) == p(i),
    ensures
        places(picked(n, p), n as int, so),
    decreases n,
{
    if n > 0 {
        let m = (n - 1) as nat;
        picks_are_places(m, p, so);
        assert(so(n - 1) == p(n - 1));
        assert forall|i: int| 0 <= i < n && #[trigger] so(i) implies 0 <= tally(i, so) < picked(
            n,
            p,
        ).len() && picked(n, p)[tally(i, so)] == i by {
            tallies_grow(i, n as int, so);
            if i < n - 1 {
                assert(picked(m, p)[tally(i, so)] == i);
            }
        }
    }
}

/// What is found comes from the places that are so, in order.
proof fn finds_are_places<T>(n: nat, f: spec_fn(int) -> Option<T>, so: spec_fn(int) -> bool, i: int)
    requires
        forall|x: int| 0 <= x < n ==> #[trigger] so(x) == (f(x) is Some),
    ensures
        found(n, f).len() == tally(n as int, so),
        0 <= i < n && so(i) ==> 0 <= tally(i, so) < found(n, f).len() && f(i) == Some(
            found(n, f)[tally(i, so)],
        ),
    decreases n,
{
    if n > 0 {
        let m = (n - 1) as nat;
        finds_are_places(m, f, so, i);
        assert(so(n - 1) == (f(n - 1) is Some));
        if 0 <= i < n && so(i) {
            tallies_grow(i, n as int, so);
        }
    }
}

/// A key occurs as often as it is found.
proof fn occurrences_are_tallies(n: nat, f: spec_fn(int) -> Option<u64>, k: u64, so: spec_fn(int) -> bool)
    requires
        forall|x: int| 0 <= x < n ==> #[trigger] so(x) == (f(x) == Some(k)),
    ensures
        occurrences(found(n, f), k) == tally(n as int, so),
    decreases n,
{
    if n > 0 {
        let m = (n - 1) as nat;
        occurrences_are_tallies(m, f, k, so);
        assert(so(n - 1) == (f(n - 1) == Some(k)));
        if f(n - 1) is Some {
            assert(found(n, f).drop_last() =~= found(m, f));
        }
    }
}

/// The pairs say of every key how often it is so, in increasing order of the keys, and
/// leave out those that never are.
pub open spec fn tells_all(
    pairs: Seq<(u64, u64)>,
    n: int,
    so: spec_fn(u64) -> spec_fn(int) -> bool,
) -> bool {
    &&& forall|i: int, j: int|
        0 <= i < j < pairs.len() ==> (#[trigger] pairs[i]).0 < (#[trigger] pairs[j]).0
    &&& forall|i: int|
        0 <= i < pairs.len() ==> (#[trigger] pairs[i]).1 == tally(n, so(pairs[i].0)) && pairs[i].1
            > 0
    &&& forall|k: u64| #[trigger] tally(n, so(k)) > 0 ==> exists|i: int|
        0 <= i < pairs.len() && (#[trigger] pairs[i]).0 == k
}

proof fn counts_are_tallies(
    pairs: Seq<(u64, u64)>,
    n: nat,
    f: spec_fn(int) -> Option<u64>,
    so: spec_fn(u64) -> spec_fn(int) -> bool,
)
    requires
        super::report::counts_of(pairs, found(n, f)),
        forall|k: u64, x: int| 0 <= x < n ==> #[trigger] so(k)(x) == (f(x) == Some(k)),
    ensures
        tells_all(pairs, n as int, so),
{
    let keys = found(n, f);
    assert forall|k: u64| occurrences(keys, k) == #[trigger] tally(n as int, so(k)) by {
        occurrences_are_tallies(n, f, k, so(k));
    }
    assert forall|i: int| 0 <= i < pairs.len() implies (#[trigger] pairs[i]).1 == tally(
        n as int,
        so(pairs[i].0),
    ) && pairs[i].1 > 0 by {
        assert(occurrences(keys, pairs[i].0) == tally(n as int, so(pairs[i].0)));
    }
    assert forall|k: u64| #[trigger] tally(n as int, so(k)) > 0 implies exists|i: int|
        0 <= i < pairs.len() && (#[trigger] pairs[i]).0 == k by {
        assert(occurrences(keys, k) > 0);
    }
}

proof fn measured_alike(r: RequestRecord, start_ms: u64, warmup_secs: u64)
    ensures
        counts(r, warmup_end(start_ms, warmup_secs)) == is_measured(r, start_ms, warmup_secs),
        counts_ok(r, warmup_end(start_ms, warmup_secs)) == (is_measured(r, start_ms, warmup_secs)
            && is_fine(r)),
{
}

/// Of a run every request is counted; those that end after the warm-up are measured, and
/// of these those with a status of success are fine: each at its place, in order, and no
/// others.
pub proof fn requests_are_measured(
    s: Summary,
    records: Seq<RequestRecord>,
    start_ms: u64,
    warmup_secs: u64,
    gateways: nat,
)
    requires
        summary_of(s, records, start_ms, warmup_secs, gateways),
        records.len() <= usize::MAX,
    ensures
        s.requests == records.len(),
        places(
            s.measured@,
            records.len() as int,
            |i: int| is_measured(records[i], start_ms, warmup_secs),
        ),
        places(
            s.ok@,
            records.len() as int,
            |i: int| is_measured(records[i], start_ms, warmup_secs) && is_fine(records[i]),
        ),
{
    let n = records.len();
    let end = warmup_end(start_ms, warmup_secs);
    let a = |i: int| is_measured(records[i], start_ms, warmup_secs);
    let b = |i: int| is_measured(records[i], start_ms, warmup_secs) && is_fine(records[i]);
    assert forall|i: int| 0 <= i < n implies #[trigger] a(i) == (|i: int| counts(records[i], end))(
        i,
    ) by {
        measured_alike(records[i], start_ms, warmup_secs);
    }
    assert forall|i: int| 0 <= i < n implies #[trigger] b(i) == (|i: int|
        counts_ok(records[i], end))(i) by {
        measured_alike(records[i], start_ms, warmup_secs);
    }
    picks_are_places(n, |i: int| counts(records[i], end), a);
    picks_are_places(n, |i: int| counts_ok(records[i], end), b);
}

/// The block tells of every request of the turn that was measured; of every one that
/// succeeded its place; and of every one of these that sent a prompt and knows how much
/// of it was cached, be it nothing, how much that was of how much.
pub open spec fn tells_turn(
    b: TurnBlock,
    records: Seq<RequestRecord>,
    start_ms: u64,
    warmup_secs: u64,
    turn: u8,
) -> bool {
    let n = records.len() as int;
    let ratio = |i: int| has_ratio(records[i], start_ms, warmup_secs, turn);
    &&& b.count == tally(
        n,
        |i: int| is_measured(records[i], start_ms, warmup_secs) && records[i].turn == turn,
    )
    &&& places(b.ok@, n, |i: int| is_fine_turn(records[i], start_ms, warmup_secs, turn))
    &&& b.cached@.len() == tally(n, ratio)
    &&& forall|i: int|
        0 <= i < n && #[trigger] ratio(i) ==> {
            let c = b.cached@[tally(i, ratio)];
            &&& 0 <= tally(i, ratio) < b.cached@.len()
            &&& c.0 == records[i].cached_tokens->0
            &&& c.1 == records[i].prompt_tokens
        }
}

proof fn turn_is_told(
    b: TurnBlock,
    records: Seq<RequestRecord>,
    start_ms: u64,
    warmup_secs: u64,
    turn: u8,
)
    requires
        super::report::block_of(b, records, warmup_end(start_ms, warmup_secs), turn),
        records.len() <= usize::MAX,
    ensures
        tells_turn(b, records, start_ms, warmup_secs, turn),
{
    let n = records.len();
    let end = warmup_end(start_ms, warmup_secs);
    let p = |i: int| counts(records[i], end) && records[i].turn == turn;
    let q = |i: int| counts_ok(records[i], end) && records[i].turn == turn;
    let f = |i: int| cached_part(records[i], end, turn);
    let a = |i: int| is_measured(records[i], start_ms, warmup_secs) && records[i].turn == turn;
    let c = |i: int| is_fine_turn(records[i], start_ms, warmup_secs, turn);
    let ratio = |i: int| has_ratio(records[i], start_ms, warmup_secs, turn);
    assert forall|i: int| 0 <= i < n implies #[trigger] a(i) == p(i) by {
        measured_alike(records[i], start_ms, warmup_secs);
    }
    assert forall|i: int| 0 <= i < n implies #[trigger] c(i) == q(i) by {
        measured_alike(records[i], start_ms, warmup_secs);
    }
    assert forall|i: int| 0 <= i < n implies #[trigger] ratio(i) == (f(i) is Some) by {
        measured_alike(records[i], start_ms, warmup_secs);
    }
    picks_are_places(n, p, a);
    picks_are_places(n, q, c);
    finds_are_places(n, f, ratio, 0);
    assert forall|i: int| 0 <= i < n && #[trigger] ratio(i) implies {
        let c = b.cached@[tally(i, ratio)];
        &&& 0 <= tally(i, ratio) < b.cached@.len()
        &&& c.0 == records[i].cached_tokens->0
        &&& c.1 == records[i].prompt_tokens
    } by {
        finds_are_places(n, f, ratio, i);
    }
}

/// Every request of a turn that counts has its part in the turn's figures: the number of
/// ratios is the number of requests that have one, also of those with no token cached.
pub proof fn turns_are_told(
    s: Summary,
    records: Seq<RequestRecord>,
    start_ms: u64,
    warmup_secs: u64,
    gateways: nat,
)
    requires
        summary_of(s, records, start_ms, warmup_secs, gateways),
        records.len() <= usize::MAX,
    ensures
        tells_turn(s.turn1, records, start_ms, warmup_secs, 1),
        tells_turn(s.turn2, records, start_ms, warmup_secs, 2),
{
    turn_is_told(s.turn1, records, start_ms, warmup_secs, 1);
    turn_is_told(s.turn2, records, start_ms, warmup_secs, 2);
}

/// Every failure counts, of the warm-up too: each status that is none of success has the
/// number of requests that ended with it.
pub proof fn failures_are_counted(
    s: Summary,
    records: Seq<RequestRecord>,
    start_ms: u64,
    warmup_secs: u64,
    gateways: nat,
)
    requires
        summary_of(s, records, start_ms, warmup_secs, gateways),
    ensures
        tells_all(
            s.errors@,
            records.len() as int,
            |k: u64| |i: int| !is_fine(records[i]) && records[i].status == k,
        ),
{
    let so = |k: u64| |i: int| !is_fine(records[i]) && records[i].status == k;
    let f = |i: int| failure(records[i]);
    assert forall|k: u64, x: int| 0 <= x < records.len() implies #[trigger] so(k)(x) == (f(x)
        == Some(k)) by {}
    counts_are_tallies(s.errors@, records.len(), f, so);
}

/// Every first turn that counts, succeeded and knows its worker counts for that worker;
/// every request counts for its gateway.
pub proof fn workers_and_gateways_are_counted(
    s: Summary,
    records: Seq<RequestRecord>,
    start_ms: u64,
    warmup_secs: u64,
    gateways: nat,
    g: int,
)
    requires
        summary_of(s, records, start_ms, warmup_secs, gateways),
        records.len() <= usize::MAX,
    ensures
        tells_all(
            s.worker_counts@,
            records.len() as int,
            |k: u64|
                |i: int|
                    is_fine_turn(records[i], start_ms, warmup_secs, 1) && records[i].worker_port
                        == Some(k),
        ),
        s.first_turns == tally(
            records.len() as int,
            |i: int|
                is_fine_turn(records[i], start_ms, warmup_secs, 1)
                    && records[i].worker_port is Some,
        ),
        s.per_smg@.len() == gateways,
        0 <= g < gateways ==> s.per_smg@[g] == tally(
            records.len() as int,
            |i: int| records[i].smg == g,
        ),
{
    let n = records.len();
    let end = warmup_end(start_ms, warmup_secs);
    let f = |i: int| first_port(records[i], end);
    let so = |k: u64|
        |i: int|
            is_fine_turn(records[i], start_ms, warmup_secs, 1) && records[i].worker_port == Some(k);
    let any = |i: int|
        is_fine_turn(records[i], start_ms, warmup_secs, 1) && records[i].worker_port is Some;
    assert forall|k: u64, x: int| 0 <= x < n implies #[trigger] so(k)(x) == (f(x) == Some(k)) by {
        measured_alike(records[x], start_ms, warmup_secs);
    }
    assert forall|x: int| 0 <= x < n implies #[trigger] any(x) == (f(x) is Some) by {
        measured_alike(records[x], start_ms, warmup_secs);
    }
    counts_are_tallies(s.worker_counts@, n, f, so);
    finds_are_places(n, f, any, 0);
    if 0 <= g < gateways {
        let p = |i: int| records[i].smg == g;
        picks_are_places(n, p, p);
        assert(s.per_smg@[g] == picked(n, p).len());
    }
}

/// Record `i` is the first to tell which worker its session's first turn reached.
pub open spec fn is_anchor(records: Seq<RequestRecord>, i: int) -> bool {
    &&& tells_worker(records, i, records[i].session)
    &&& forall|j: int| 0 <= j < i ==> !tells_worker(records, j, records[i].session)
}

/// Record `i` is a first turn of the session that succeeded and knows its worker.
pub open spec fn tells_worker(records: Seq<RequestRecord>, i: int, session: u64) -> bool {
    &&& 0 <= i < records.len()
    &&& records[i].session == session
    &&& records[i].turn == 1
    &&& is_fine(records[i])
    &&& records[i].worker_port is Some
}

/// Some record before the `n`th tells the worker of the session.
pub open spec fn has_anchor(records: Seq<RequestRecord>, n: int, session: u64) -> bool {
    exists|i: int| i < n && #[trigger] tells_worker(records, i, session)
}

proof fn anchors_are_first(records: Seq<RequestRecord>, session: u64)
    ensures
        anchors(records).contains_key(session) <==> has_anchor(
            records,
            records.len() as int,
            session,
        ),
        forall|i: int|
            #![trigger records[i]]
            0 <= i < records.len() && records[i].session == session && is_anchor(records, i)
                ==> anchors(records).contains_key(session) && anchors(records)[session]
                == records[i].worker_port->0,
    decreases records.len(),
{
    if records.len() > 0 {
        let init = records.drop_last();
        let n = records.len() - 1;
        anchors_are_first(init, session);
        assert forall|i: int| 0 <= i < n implies tells_worker(records, i, session)
            == #[trigger] tells_worker(init, i, session) by {}
        if has_anchor(init, n, session) {
            let i = choose|i: int| i < n && #[trigger] tells_worker(init, i, session);
            assert(tells_worker(records, i, session));
        }
        if has_anchor(records, n + 1, session) {
            let i = choose|i: int| i < n + 1 && #[trigger] tells_worker(records, i, session);
            if i < n {
                assert(tells_worker(init, i, session));
            }
        }
        if anchors(records).contains_key(session) && !anchors(init).contains_key(session) {
            assert(tells_worker(records, n, session));
        }
        assert forall|i: int|
            #![trigger records[i]]
            0 <= i < records.len() && records[i].session == session && is_anchor(
                records,
                i,
            ) implies anchors(records).contains_key(session) && anchors(records)[session]
            == records[i].worker_port->0 by {
            if i < n {
                assert(init[i] == records[i]);
                assert(tells_worker(init, i, session));
                assert forall|j: int| 0 <= j < i implies !tells_worker(init, j, session) by {
                    assert(!tells_worker(records, j, session));
                }
                assert(is_anchor(init, i));
            } else {
                assert(!anchors(init).contains_key(session)) by {
                    if has_anchor(init, n, session) {
                        let j = choose|j: int| j < n && #[trigger] tells_worker(init, j, session);
                        assert(tells_worker(records, j, session));
                    }
                }
            }
        }
    }
}

/// A second turn that is compared: it counts, succeeded, knows its worker, and its
/// session's first worker is known.
pub open spec fn is_compared(
    records: Seq<RequestRecord>,
    i: int,
    start_ms: u64,
    warmup_secs: u64,
) -> bool {
    &&& is_fine_turn(records[i], start_ms, warmup_secs, 2)
    &&& records[i].worker_port is Some
    &&& has_anchor(records, records.len() as int, records[i].session)
}

/// Every second turn that can be is compared with its session's first: it met again
/// exactly if it reached the worker of the first record that tells it.
pub proof fn second_turns_are_compared(
    s: Summary,
    records: Seq<RequestRecord>,
    start_ms: u64,
    warmup_secs: u64,
    gateways: nat,
    i: int,
    first: int,
)
    requires
        summary_of(s, records, start_ms, warmup_secs, gateways),
    ensures
        ({
            let n = records.len() as int;
            let so = |x: int| is_compared(records, x, start_ms, warmup_secs);
            &&& s.reunions@.len() == tally(n, so)
            &&& 0 <= i < n && is_compared(records, i, start_ms, warmup_secs) && 0 <= first < n
                && is_anchor(records, first) && records[first].session == records[i].session
                ==> s.reunions@[tally(i, so)] == (records[i].worker_port
                == records[first].worker_port)
        }),
{
    let n = records.len();
    let end = warmup_end(start_ms, warmup_secs);
    let ports = anchors(records);
    let f = |x: int| reunion(records[x], end, ports);
    let so = |x: int| is_compared(records, x, start_ms, warmup_secs);
    assert forall|x: int| 0 <= x < n implies #[trigger] so(x) == (f(x) is Some) by {
        measured_alike(records[x], start_ms, warmup_secs);
        anchors_are_first(records, records[x].session);
    }
    finds_are_places(n, f, so, i);
    if 0 <= i < n && so(i) && 0 <= first < n && is_anchor(records, first) && records[first].session
        == records[i].session {
        anchors_are_first(records, records[i].session);
        assert(ports[records[i].session] == records[first].worker_port->0);
        assert(f(i) == Some(s.reunions@[tally(i, so)]));
    }
}

} // verus!
