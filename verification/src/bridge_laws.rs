//! What the bridge makes of workers' batches, and what a worker's loop does.

use crate::bridge::digest_of;
use crate::bridge::established;
use crate::bridge::events_of;
use crate::bridge::keyspace_of;
use crate::bridge::meant_for;
use crate::bridge::noted;
use crate::bridge::on_record;
use crate::bridge::others;
use crate::bridge::published;
use crate::bridge::recorded;
use crate::bridge::same_target;
use crate::bridge::update_of;
use crate::bridge::Cursor;
use crate::bridge::Refusal;
use crate::bridge::WorkerAction;
use crate::bridge::WorkerEvent;
use crate::bridge::WorkerLoop;
use crate::effects::after;
use crate::effects::applies;
use crate::effects::before;
use crate::effects::content_chain;
use crate::effects::counted_in;
use crate::effects::met_blocks;
use crate::effects::new_keys;
use crate::effects::stored_batches_are_found;
use crate::effects::stores_batch;
use crate::engine::EngineView;
use crate::engine::HolderScore;
use crate::engine::UpdateMsg;
use crate::engine::WireBlock;
use crate::proto::EventView;
use crate::proto::KeyspaceView;
use crate::proto::KvBlock;
use crate::proto::KvCacheEvent;
use crate::proto::KvData;
use crate::proto::KvEventBatch;
use crate::proto::SymbolKind;
use crate::proto::UpdateView;
use crate::replicas::answers;
use crate::wire_hash::token_bytes;
use crate::wire_hash::xxh3_64;
use vstd::prelude::*;

verus! {

// ── Conversion ──────────────────────────────────────────────────────────────

/// The two numbers have the same 64 bits.
pub open spec fn same_bits(h: i64, n: u64) -> bool {
    n == h || n == h + 0x1_0000_0000_0000_0000
}

/// How many of the first `n` events have data.
pub open spec fn with_data(events: Seq<KvCacheEvent>, n: int) -> int
    decreases n,
{
    if n <= 0 {
        0
    } else {
        with_data(events, n - 1) + if events[n - 1].data is Some {
            1int
        } else {
            0
        }
    }
}

/// The event of the index says what the worker's change says: the same kind, and the
/// same blocks in the same order.
pub open spec fn says_the_same(data: KvData, event: EventView) -> bool {
    match data {
        KvData::Stored { parent_block_hash, blocks } => {
            &&& event matches EventView::Stored(parent, own)
            &&& own.len() == blocks@.len()
            &&& forall|j: int|
                0 <= j < blocks@.len() ==> same_bits(
                    (#[trigger] blocks@[j]).block_hash,
                    own[j].seq_hash,
                ) && own[j].content_hash == xxh3_64(token_bytes(blocks@[j].token_ids@), 1337)
            &&& match parent_block_hash {
                None => parent is None,
                Some(h) => parent matches Some(p) && same_bits(h, p),
            }
        },
        KvData::Removed { block_hashes } => {
            &&& event matches EventView::Removed(own)
            &&& own.len() == block_hashes@.len()
            &&& forall|j: int|
                0 <= j < block_hashes@.len() ==> same_bits(#[trigger] block_hashes@[j], own[j])
        },
        KvData::Cleared => event == EventView::Cleared(true),
    }
}

/// A batch becomes an update of its holder, epoch and number, and every change with
/// data becomes one event, in the order of the batch: blocks keep their order, their
/// hashes keep their bits, and contents are hashed from the tokens.
pub proof fn batches_keep_their_order(
    batch: KvEventBatch,
    model: Seq<char>,
    block_size: u32,
    holder: Seq<char>,
    epoch: u64,
)
    ensures
        ({
            let u = update_of(batch, model, block_size, holder, epoch);
            let events = batch.events@;
            &&& u.keyspace == Some(
                KeyspaceView { model, symbol_kind: 0, block_size, hash_scheme: 1 },
            )
            &&& u.holder == holder
            &&& u.epoch == epoch
            &&& u.seq == batch.sequence_number
            &&& u.added is None
            &&& !u.dropped
            &&& u.events.len() == with_data(events, events.len() as int)
            &&& forall|i: int|
                0 <= i < events.len() && (#[trigger] events[i]).data is Some ==> says_the_same(
                    events[i].data->0,
                    u.events[with_data(events, i)],
                )
        }),
{
    events_keep_their_order(batch.events@);
}

proof fn data_counts(events: Seq<KvCacheEvent>, i: int, n: int)
    requires
        0 <= i <= n,
    ensures
        0 <= with_data(events, i) <= with_data(events, n),
        i < n && events[i].data is Some ==> with_data(events, i) < with_data(events, n),
    decreases n,
{
    if i < n {
        data_counts(events, i, n - 1);
    } else if n > 0 {
        data_counts(events, n - 1, n - 1);
    }
}

proof fn data_prefix(a: Seq<KvCacheEvent>, b: Seq<KvCacheEvent>, n: int)
    requires
        forall|i: int| 0 <= i < n ==> a[i] == b[i],
    ensures
        with_data(a, n) == with_data(b, n),
    decreases n,
{
    if n > 0 {
        data_prefix(a, b, n - 1);
    }
}

proof fn events_keep_their_order(events: Seq<KvCacheEvent>)
    ensures
        events_of(events).len() == with_data(events, events.len() as int),
        forall|i: int|
            0 <= i < events.len() && (#[trigger] events[i]).data is Some ==> says_the_same(
                events[i].data->0,
                events_of(events)[with_data(events, i)],
            ),
    decreases events.len(),
{
    if events.len() > 0 {
        let init = events.drop_last();
        let n = events.len() - 1;
        events_keep_their_order(init);
        data_prefix(init, events, n);
        assert forall|i: int| 0 <= i < events.len() && (#[trigger] events[i]).data is Some implies
            says_the_same(events[i].data->0, events_of(events)[with_data(events, i)]) by {
            if i < n {
                data_prefix(init, events, i);
                data_counts(events, i, n);
                assert(init[i] == events[i]);
                assert(events_of(events)[with_data(events, i)] == events_of(init)[with_data(
                    events,
                    i,
                )]);
            }
        }
    }
}

/// The update of the engine says what the converted one says.
pub open spec fn carries(m: UpdateMsg, u: UpdateView, parent: Option<u64>, blocks: Seq<WireBlock>) -> bool {
    &&& u.events.len() == 1
    &&& u.events[0] matches EventView::Stored(up, own)
    &&& up == parent
    &&& own.len() == blocks.len()
    &&& forall|j: int|
        0 <= j < own.len() ==> (#[trigger] own[j]).seq_hash == blocks[j].seq_hash.0
            && own[j].content_hash == blocks[j].content_hash.0
    &&& stores_batch(m, parent, blocks)
    &&& m.seq == u.seq
    &&& m.epoch == u.epoch
    &&& m.holder@ == u.holder
}

/// What a worker stores is found: an engine that takes a worker's batch, whose blocks
/// it did not know of that worker, matches the tokens of the blocks, block after
/// block, to their full depth.
pub proof fn converted_chains_are_found(
    e: EngineView,
    batch: KvEventBatch,
    model: Seq<char>,
    block_size: u32,
    m: UpdateMsg,
    blocks: Seq<WireBlock>,
    own: Seq<KvBlock>,
    now: u64,
    q: Seq<u64>,
    r: Seq<HolderScore>,
)
    requires
        batch.sequence_number > 0,
        batch.events@.len() == 1,
        batch.events@[0].data matches Some(KvData::Stored { parent_block_hash, blocks: b })
            && parent_block_hash is None && b@ == own,
        own.len() > 0,
        carries(
            m,
            update_of(batch, model, block_size, m.holder@, m.epoch),
            None,
            blocks,
        ),
        applies(e, m),
        counted_in(before(e, m), m),
        new_keys(met_blocks(before(e, m), m), blocks),
        own.len() <= e.space(m.keyspace@).tree.limit,
        q.len() == own.len(),
        forall|j: int|
            0 <= j < own.len() ==> #[trigger] q[j] == xxh3_64(
                token_bytes(own[j].token_ids@),
                1337,
            ),
        answers(e.after(m, now), m.keyspace@, q, r),
    ensures
        !after(e, m, now).posture.dropped ==> exists|i: int|
            0 <= i < r.len() && (#[trigger] r[i]).holder@ == m.holder@ && r[i].matched_blocks
                == own.len(),
{
    let u = update_of(batch, model, block_size, m.holder@, m.epoch);
    batches_keep_their_order(batch, model, block_size, m.holder@, m.epoch);
    assert(with_data(batch.events@, 0) == 0);
    assert(says_the_same(batch.events@[0].data->0, u.events[0]));
    let c = Seq::<u64>::empty();
    assert(c + content_chain(blocks) =~= q) by {
        assert forall|j: int| 0 <= j < q.len() implies content_chain(blocks)[j] == q[j] by {
            assert(own[j].token_ids@ == own[j].token_ids@);
        }
    }
    stored_batches_are_found(e, m, now, None, blocks, c, r);
}

/// Tokens and raw bytes never share a keyspace, nor do models or block sizes.
pub proof fn keyspaces_are_apart(
    model: Seq<char>,
    block_size: u32,
    kind: SymbolKind,
    other: Seq<char>,
    size: u32,
    other_kind: SymbolKind,
)
    ensures
        keyspace_of(model, block_size, kind) == keyspace_of(other, size, other_kind) <==> model
            == other && block_size == size && kind == other_kind,
        keyspace_of(model, block_size, kind).model == model,
        keyspace_of(model, block_size, kind).block_size == block_size,
        keyspace_of(model, block_size, kind).hash_scheme == 1,
        keyspace_of(model, block_size, kind).symbol_kind == if kind is Tokens {
            0i32
        } else {
            1i32
        },
{
}

// ── A worker's loop ─────────────────────────────────────────────────────────

/// The loop takes the event, does the action, and stands where `c` says.
pub open spec fn steps(l: WorkerLoop, event: WorkerEvent, action: WorkerAction, c: Cursor) -> bool {
    &&& l.has_epoch_for(event)
    &&& l.answers(event, action)
    &&& c == l.moved(event)
}

/// A batch goes out exactly if it is the first of its epoch or the one behind the last
/// that went out; it goes out under its own number, in the loop's epoch and for the
/// loop's worker, and the loop stands behind it. One that went out before is passed
/// over. One that leaves a gap is not sent: the loop starts over in the next epoch.
pub proof fn batches_go_out_once(l: WorkerLoop, batch: KvEventBatch, action: WorkerAction, c: Cursor)
    requires
        steps(l, WorkerEvent::Batch(batch), action, c),
    ensures
        ({
            let seq = batch.sequence_number;
            let next = l.last_seq == 0 || seq == l.last_seq + 1;
            &&& action is Send <==> next
            &&& action matches WorkerAction::Send(u) ==> {
                &&& u.seq == seq
                &&& u.epoch == l.epoch
                &&& u.holder@ == l.worker@
                &&& u@ == update_of(batch, l.model@, l.block_size, l.worker@, l.epoch)
                &&& c.epoch == l.epoch
                &&& c.last_seq == seq
            }
            &&& !next && seq <= l.last_seq ==> action is Next && c.epoch == l.epoch && c.last_seq
                == l.last_seq
            &&& !next && seq > l.last_seq ==> action == (WorkerAction::Retry { after_ms: 200 })
                && c.epoch == l.epoch + 1 && c.last_seq == 0
        }),
{
}

/// A start subscribes behind the last batch of the epoch; where the index has the
/// epoch on record, or a higher one, the loop goes past it and replays from zero.
pub proof fn starts_pass_the_record(l: WorkerLoop, known: u64, action: WorkerAction, c: Cursor)
    requires
        steps(l, WorkerEvent::Start { known }, action, c),
    ensures
        c.epoch > known,
        action == (WorkerAction::Subscribe { from: c.last_seq }),
        known < l.epoch ==> c.epoch == l.epoch && c.last_seq == l.last_seq,
        known >= l.epoch ==> c.epoch == known + 1 && c.last_seq == 0,
{
}

/// A refusal ends the loop where there is no event stream, starts the next epoch where
/// the cursor is lost, and else leaves all as it is; all but the first try again after
/// a while.
pub proof fn refusals_are_told_apart(l: WorkerLoop, refusal: Refusal, action: WorkerAction, c: Cursor)
    requires
        steps(l, WorkerEvent::Refused(refusal), action, c),
    ensures
        action is Exit <==> refusal is Unimplemented,
        !(refusal is Unimplemented) ==> action == (WorkerAction::Retry { after_ms: 500 }),
        if refusal is OutOfRange || refusal is DataLoss {
            c.epoch == l.epoch + 1 && c.last_seq == 0
        } else {
            c.epoch == l.epoch && c.last_seq == l.last_seq
        },
{
}

/// Lost connections, ends of streams and updates that went out leave the loop where it
/// is. After an update it goes on, unless the index has the epoch on record.
pub proof fn interruptions_keep_the_place(
    l: WorkerLoop,
    event: WorkerEvent,
    action: WorkerAction,
    c: Cursor,
)
    requires
        steps(l, event, action, c),
        event is Unreachable || event is Sent || event is Ended || event is PublisherGone,
    ensures
        c.epoch == l.epoch,
        c.last_seq == l.last_seq,
        event is Unreachable ==> action == (WorkerAction::Retry { after_ms: 500 }),
        event is Ended ==> action == (WorkerAction::Retry { after_ms: 200 }),
        event is PublisherGone ==> action is Exit,
        event matches WorkerEvent::Sent { known } ==> if known >= l.epoch {
            action == (WorkerAction::Retry { after_ms: 200 })
        } else {
            action is Next
        },
{
}

/// Epochs never fall, and within an epoch the place never falls.
pub proof fn loops_only_advance(l: WorkerLoop, event: WorkerEvent, action: WorkerAction, c: Cursor)
    requires
        steps(l, event, action, c),
    ensures
        c.epoch >= l.epoch,
        c.epoch == l.epoch && l.last_seq > 0 ==> c.last_seq >= l.last_seq,
        c.epoch > l.epoch ==> c.last_seq == 0,
{
}

// ── The ledger ──────────────────────────────────────────────────────────────

/// The ledger has the highest epoch that was acknowledged: of what it had and what
/// came, the higher one; and nothing of a holder that was never heard of.
pub proof fn records_are_the_highest(
    ledger: Map<Seq<char>, u64>,
    acked: Seq<char>,
    epoch: u64,
    holder: Seq<char>,
)
    ensures
        on_record(recorded(ledger, acked, epoch), acked) == if on_record(ledger, acked) > epoch {
            on_record(ledger, acked)
        } else {
            epoch
        },
        holder != acked ==> on_record(recorded(ledger, acked, epoch), holder) == on_record(
            ledger,
            holder,
        ),
        on_record(Map::<Seq<char>, u64>::empty(), holder) == 0,
        ledger.contains_key(holder) ==> on_record(ledger, holder) == ledger[holder],
{
}

// ── Digests ─────────────────────────────────────────────────────────────────

/// A digest speaks of the chain and the holder of the update that it stands for, and
/// of nothing else.
pub proof fn digests_speak_for_their_update(full: UpdateView, tip: u64, len: u32)
    ensures
        ({
            let d = digest_of(full, tip, len);
            &&& d.keyspace == full.keyspace
            &&& d.holder == full.holder
            &&& d.epoch == full.epoch
            &&& d.seq == 0
            &&& d.added is None
            &&& !d.dropped
            &&& d.events.len() == 1
            &&& d.events[0] matches EventView::Digest(x) && x.tip_seq_hash == tip && x.len == len
                && x.parent_seq_hash is None
        }),
{
}

/// Only what was published is established: planning an update establishes its own
/// chain for its own holder and keyspace and no other, and below the cap nothing is
/// forgotten.
pub proof fn only_plans_establish(
    pre: Map<u64, Seq<UpdateView>>,
    tip: u64,
    full: UpdateView,
    post: Map<u64, Seq<UpdateView>>,
    t: u64,
    x: UpdateView,
)
    requires
        noted(pre, tip, full, post),
        pre.dom().finite(),
    ensures
        established(post, tip, full),
        established(post, t, x) ==> established(pre, t, x) || (t == tip && x.keyspace
            == full.keyspace && x.holder == full.holder),
        (pre.contains_key(tip) || pre.len() < 131_072) && established(pre, t, x) ==> established(
            post,
            t,
            x,
        ),
        !established(Map::<u64, Seq<UpdateView>>::empty(), t, x),
        pre.len() <= 131_072 ==> post.len() <= 131_072,
{
    let row = others(published(pre, tip), full).push(full);
    assert(published(post, tip) == row);
    assert(same_target(row[row.len() - 1], full));
    if established(post, t, x) {
        let i = choose|i: int|
            0 <= i < published(post, t).len() && same_target(#[trigger] published(post, t)[i], x);
        if t == tip {
            if i < row.len() - 1 {
                let j = others_were_there(published(pre, tip), full, i);
                assert(same_target(published(pre, tip)[j], x));
            }
        } else {
            assert(published(pre, t) == published(post, t));
            assert(same_target(published(pre, t)[i], x));
        }
    }
    if (pre.contains_key(tip) || pre.len() < 131_072) && established(pre, t, x) {
        let i = choose|i: int|
            0 <= i < published(pre, t).len() && same_target(#[trigger] published(pre, t)[i], x);
        if t == tip {
            let u = published(pre, t)[i];
            if same_target(u, full) {
                assert(same_target(row[row.len() - 1], x));
            } else {
                assert(published(pre, t).contains(u));
                crate::bridge::digests_are_backed(pre, tip, full, post, u);
                let j = choose|j: int|
                    0 <= j < published(post, tip).len() && published(post, tip)[j] == u;
                assert(same_target(published(post, tip)[j], x));
            }
        } else {
            assert(published(post, t) == published(pre, t));
            assert(same_target(published(post, t)[i], x));
        }
    }
}

/// Who is left was there, and is for another target.
proof fn others_were_there(s: Seq<UpdateView>, full: UpdateView, i: int) -> (j: int)
    requires
        0 <= i < others(s, full).len(),
    ensures
        0 <= j < s.len(),
        s[j] == others(s, full)[i],
        !same_target(s[j], full),
    decreases s.len(),
{
    let init = others(s.drop_last(), full);
    if i < init.len() {
        let j = others_were_there(s.drop_last(), full, i);
        assert(s.drop_last()[j] == s[j]);
        j
    } else {
        s.len() - 1
    }
}

/// What is sent again for a holder are the updates that were published for it, all of
/// them, and none for another.
pub proof fn misses_are_answered_in_full(s: Seq<UpdateView>, holder: Seq<char>, u: UpdateView)
    ensures
        meant_for(s, holder).contains(u) <==> s.contains(u) && u.holder == holder,
        meant_for(s, holder).len() <= s.len(),
    decreases s.len(),
{
    if s.len() > 0 {
        let init = s.drop_last();
        let part = meant_for(init, holder);
        misses_are_answered_in_full(init, holder, u);
        assert(s =~= init.push(s.last()));
        if init.contains(u) {
            let i = init.index_of(u);
            assert(s[i] == u);
        }
        if s.contains(u) {
            let i = s.index_of(u);
            if i < init.len() {
                assert(init[i] == u);
            }
        }
        if s.last().holder == holder {
            let all = meant_for(s, holder);
            if part.contains(u) {
                let i = part.index_of(u);
                assert(all[i] == u);
            }
            assert(all[part.len() as int] == s.last());
            if all.contains(u) && u != s.last() {
                let i = all.index_of(u);
                assert(part[i] == u);
            }
            assert(s[s.len() - 1] == s.last());
        }
    }
}

/// What is noted of one holder in one keyspace replaces what was noted of it there, and
/// nothing else: under the same tip every other holder, and every other keyspace, keeps its
/// update, once, and in its order.
pub proof fn noted_updates_stay_apart(
    pre: Map<u64, Seq<UpdateView>>,
    tip: u64,
    full: UpdateView,
    post: Map<u64, Seq<UpdateView>>,
    x: UpdateView,
)
    requires
        noted(pre, tip, full, post),
    ensures
        published(post, tip).last() == full,
        !(x.keyspace == full.keyspace && x.holder == full.holder) ==> (published(
            post,
            tip,
        ).contains(x) <==> published(pre, tip).contains(x)),
        x.keyspace == full.keyspace && x.holder == full.holder && published(post, tip).contains(x)
            ==> x == full,
        published(post, tip).len() <= published(pre, tip).len() + 1,
{
    let was = published(pre, tip);
    let kept = others(was, full);
    others_are_kept(was, full, x);
    let row = kept.push(full);
    assert(published(post, tip) == row);
    if kept.contains(x) {
        let i = kept.index_of(x);
        assert(row[i] == x);
    }
    if row.contains(x) && x != full {
        let i = row.index_of(x);
        assert(kept[i] == x);
    }
    assert(row[kept.len() as int] == full);
}

proof fn others_are_kept(s: Seq<UpdateView>, full: UpdateView, x: UpdateView)
    ensures
        others(s, full).contains(x) <==> s.contains(x) && !(x.keyspace == full.keyspace && x.holder
            == full.holder),
        others(s, full).len() <= s.len(),
    decreases s.len(),
{
    let kept = others(s, full);
    if s.len() > 0 {
        let init = s.drop_last();
        others_are_kept(init, full, x);
        let before = others(init, full);
        if s.contains(x) {
            let i = s.index_of(x);
            if i < init.len() {
                assert(init[i] == x);
            }
        }
        if init.contains(x) {
            let i = init.index_of(x);
            assert(s[i] == x);
        }
        assert(s[s.len() - 1] == s.last());
        if s.last().keyspace == full.keyspace && s.last().holder == full.holder {
            assert(kept == before);
        } else {
            assert(kept == before.push(s.last()));
            if before.contains(x) {
                let i = before.index_of(x);
                assert(kept[i] == x);
            }
            if kept.contains(x) {
                let i = kept.index_of(x);
                if i < before.len() {
                    assert(before[i] == x);
                }
            }
            assert(kept[before.len() as int] == s.last());
        }
    }
}

} // verus!
