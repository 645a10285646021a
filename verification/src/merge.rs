//! The query merge: sorted holder runs, narrowed position by position, with a
//! row for every holder that drops out.

use crate::holders::HolderTable;
use crate::model::answered;
use crate::model::at;
use crate::model::depth;
use crate::model::depth_is_greatest;
use crate::model::depth_step;
use crate::model::holds;
use crate::model::row_of;
use crate::model::Placement;
use crate::model::TableView;
use crate::sorted::increasing;
use crate::types::Overlap;
use vstd::prelude::*;

verus! {

/// `active` lists the holders of the first `p` positions of `q`, by slot.
pub(crate) open spec fn surviving<P: Placement>(
    t: TableView<P>,
    q: Seq<u64>,
    p: int,
    active: Seq<u32>,
) -> bool {
    &&& increasing(active)
    &&& forall|s: u32| #[trigger]
        active.contains(s) <==> t.occupied(s as int) && depth(t.blocks(s as int), q) >= p
}

/// `run` lists the holders of position `p` of `q`, by slot.
pub(crate) open spec fn run_at<P: Placement>(
    t: TableView<P>,
    q: Seq<u64>,
    p: int,
    run: Seq<u32>,
) -> bool {
    &&& increasing(run)
    &&& forall|s: u32| #[trigger]
        run.contains(s) <==> t.occupied(s as int) && holds(t.blocks(s as int), at::<P>(q, p))
}

/// `out` answers for the holders whose depth is below `p`.
pub(crate) open spec fn settled<P: Placement>(
    t: TableView<P>,
    q: Seq<u64>,
    p: int,
    out: Seq<Overlap>,
) -> bool {
    &&& forall|i: int|
        0 <= i < out.len() ==> row_of(t, q, #[trigger] out[i]) && out[i].depth < p
    &&& forall|s: int| #[trigger]
        t.occupied(s) && 0 < depth(t.blocks(s), q) < p ==> exists|i: int|
            0 <= i < out.len() && (#[trigger] out[i]).holder.slot() == s
    &&& forall|i: int, j: int|
        0 <= i < j < out.len() ==> {
            ||| (#[trigger] out[i]).depth < (#[trigger] out[j]).depth
            ||| out[i].depth == out[j].depth && out[i].holder.slot() < out[j].holder.slot()
        }
}

/// `rows` are the rows, all of depth `p`, of the slots in `gone`.
pub(crate) open spec fn rows_for<P>(
    t: TableView<P>,
    p: u32,
    gone: Seq<u32>,
    rows: Seq<Overlap>,
) -> bool {
    &&& rows.len() == gone.len()
    &&& forall|i: int| #![trigger rows[i]]
        0 <= i < rows.len() ==> rows[i].holder.slot() == gone[i] && t.live(rows[i].holder)
            && rows[i].depth == p && rows[i].total_blocks == t.blocks(gone[i] as int).len()
}

/// Appends the row of one holder.
pub(crate) fn push_answer<P>(
    holders: &HolderTable<P>,
    slot: u32,
    depth: u32,
    out: &mut Vec<Overlap>,
)
    requires
        holders.wf(),
        holders@.occupied(slot as int),
    ensures
        final(out)@.len() == old(out)@.len() + 1,
        final(out)@.drop_last() =~= old(out)@,
        rows_for(holders@, depth, seq![slot], seq![final(out)@.last()]),
{
    out.push(
        Overlap { holder: holders.id_of(slot), depth, total_blocks: holders.count(slot) as u64 },
    );
}

/// Splits `active` at `run`: what both hold survives into `next`, and the rest
/// gets rows of depth `p`.
pub(crate) fn narrow<P>(
    holders: &HolderTable<P>,
    active: &Vec<u32>,
    run: &Vec<u32>,
    p: u32,
    next: &mut Vec<u32>,
    out: &mut Vec<Overlap>,
) -> (gone: Ghost<Seq<u32>>)
    requires
        holders.wf(),
        increasing(active@),
        increasing(run@),
        forall|i: int| 0 <= i < active@.len() ==> holders@.occupied(#[trigger] active@[i] as int),
    ensures
        increasing(final(next)@),
        forall|s: u32| #[trigger]
            final(next)@.contains(s) <==> active@.contains(s) && run@.contains(s),
        increasing(gone@),
        forall|s: u32| #[trigger]
            gone@.contains(s) <==> active@.contains(s) && !run@.contains(s),
        final(out)@.len() == old(out)@.len() + gone@.len(),
        final(out)@.take(old(out)@.len() as int) =~= old(out)@,
        rows_for(holders@, p, gone@, final(out)@.skip(old(out)@.len() as int)),
{
    next.clear();
    let ghost mut gone: Seq<u32> = Seq::empty();
    let ghost base = out@;
    let mut a: usize = 0;
    let mut r: usize = 0;
    while a < active.len()
        invariant
            holders.wf(),
            increasing(active@),
            increasing(run@),
            forall|i: int|
                0 <= i < active@.len() ==> holders@.occupied(#[trigger] active@[i] as int),
            a <= active@.len(),
            r <= run@.len(),
            forall|i: int, j: int|
                0 <= i < r && a <= j < active@.len() ==> run@[i] < active@[j],
            increasing(next@),
            increasing(gone),
            forall|i: int, j: int| 0 <= i < next@.len() && a <= j < active@.len() ==> next@[i]
                < active@[j],
            forall|i: int, j: int| 0 <= i < gone.len() && a <= j < active@.len() ==> gone[i]
                < active@[j],
            forall|i: int| #![trigger next@[i]]
                0 <= i < next@.len() ==> active@.contains(next@[i]) && run@.contains(next@[i]),
            forall|i: int| #![trigger gone[i]]
                0 <= i < gone.len() ==> active@.contains(gone[i]) && !run@.contains(gone[i]),
            forall|i: int| #![trigger active@[i]]
                0 <= i < a ==> next@.contains(active@[i]) || gone.contains(active@[i]),
            out@.len() == base.len() + gone.len(),
            forall|i: int| 0 <= i < base.len() ==> out@[i] == base[i],
            forall|i: int| #![trigger gone[i]]
                0 <= i < gone.len() ==> rows_for(
                    holders@,
                    p,
                    seq![gone[i]],
                    seq![out@[base.len() + i]],
                ),
        decreases (active@.len() - a) + (run@.len() - r),
    {
        let s: u32 = active[a];
        if r < run.len() && run[r] < s {
            r = r + 1;
        } else if r < run.len() && run[r] == s {
            let ghost was = next@;
            next.push(s);
            a = a + 1;
            r = r + 1;
            proof {
                assert(active@.contains(s));
                assert(run@.contains(s));
                assert(next@[was.len() as int] == s);
                assert forall|i: int| #![trigger active@[i]] 0 <= i < a implies next@.contains(
                    active@[i],
                ) || gone.contains(active@[i]) by {
                    if i < a - 1 && was.contains(active@[i]) {
                        let k = was.index_of(active@[i]);
                        assert(next@[k] == active@[i]);
                    }
                }
            }
        } else {
            proof {
                assert(!run@.contains(s)) by {
                    if run@.contains(s) {
                        let j = run@.index_of(s);
                        assert(j < r || j >= r);
                    }
                }
            }
            let ghost was = gone;
            let ghost before_push = out@;
            push_answer(holders, s, p, out);
            a = a + 1;
            proof {
                gone = gone.push(s);
                assert(active@.contains(s));
                assert(gone[was.len() as int] == s);
                assert forall|i: int| 0 <= i < before_push.len() implies out@[i]
                    == before_push[i] by {
                    assert(out@.drop_last()[i] == before_push[i]);
                }
                assert forall|i: int| #![trigger gone[i]] 0 <= i < gone.len() implies rows_for(
                    holders@,
                    p,
                    seq![gone[i]],
                    seq![out@[base.len() + i]],
                ) by {
                    if i < was.len() {
                        assert(was[i] == gone[i]);
                    }
                }
                assert forall|i: int| #![trigger active@[i]] 0 <= i < a implies next@.contains(
                    active@[i],
                ) || gone.contains(active@[i]) by {
                    if i < a - 1 && was.contains(active@[i]) {
                        let k = was.index_of(active@[i]);
                        assert(gone[k] == active@[i]);
                    }
                }
                assert forall|i: int| #![trigger gone[i]]
                    0 <= i < gone.len() implies active@.contains(gone[i]) && !run@.contains(
                    gone[i],
                ) by {
                    if i < was.len() {
                        assert(was[i] == gone[i]);
                    }
                }
            }
        }
    }
    proof {
        assert forall|s: u32| #[trigger] next@.contains(s) <==> active@.contains(s)
            && run@.contains(s) by {
            if active@.contains(s) && run@.contains(s) {
                let i = active@.index_of(s);
                assert(active@[i] == s);
                if gone.contains(s) {
                    let k = gone.index_of(s);
                    assert(gone[k] == s);
                }
            }
            if next@.contains(s) {
                let i = next@.index_of(s);
                assert(next@[i] == s);
            }
        }
        assert forall|s: u32| #[trigger] gone.contains(s) <==> active@.contains(s)
            && !run@.contains(s) by {
            if active@.contains(s) && !run@.contains(s) {
                let i = active@.index_of(s);
                assert(active@[i] == s);
                if next@.contains(s) {
                    let k = next@.index_of(s);
                    assert(next@[k] == s);
                }
            }
            if gone.contains(s) {
                let i = gone.index_of(s);
                assert(gone[i] == s);
            }
        }
        let rows = out@.skip(base.len() as int);
        assert forall|i: int| #![trigger rows[i]] 0 <= i < rows.len() implies rows[i].holder.slot()
            == gone[i] && holders@.live(rows[i].holder) && rows[i].depth == p
            && rows[i].total_blocks == holders@.blocks(gone[i] as int).len() by {
            assert(rows[i] == out@[base.len() + i]);
            assert(rows_for(holders@, p, seq![gone[i]], seq![out@[base.len() + i]]));
            assert(seq![out@[base.len() + i]][0] == rows[i]);
        }
    }
    Ghost(gone)
}

/// Appends rows of depth `p` for all of `active`.
pub(crate) fn push_all<P>(
    holders: &HolderTable<P>,
    active: &Vec<u32>,
    p: u32,
    out: &mut Vec<Overlap>,
)
    requires
        holders.wf(),
        forall|i: int| 0 <= i < active@.len() ==> holders@.occupied(#[trigger] active@[i] as int),
    ensures
        final(out)@.len() == old(out)@.len() + active@.len(),
        final(out)@.take(old(out)@.len() as int) =~= old(out)@,
        rows_for(holders@, p, active@, final(out)@.skip(old(out)@.len() as int)),
{
    let ghost base = out@;
    let mut a: usize = 0;
    while a < active.len()
        invariant
            holders.wf(),
            forall|i: int|
                0 <= i < active@.len() ==> holders@.occupied(#[trigger] active@[i] as int),
            a <= active@.len(),
            out@.len() == base.len() + a,
            forall|i: int| 0 <= i < base.len() ==> out@[i] == base[i],
            forall|i: int| #![trigger active@[i]]
                0 <= i < a ==> rows_for(
                    holders@,
                    p,
                    seq![active@[i]],
                    seq![out@[base.len() + i]],
                ),
        decreases active@.len() - a,
    {
        let ghost before_push = out@;
        push_answer(holders, active[a], p, out);
        a = a + 1;
        proof {
            assert forall|i: int| 0 <= i < before_push.len() implies out@[i] == before_push[i] by {
                assert(out@.drop_last()[i] == before_push[i]);
            }
        }
    }
    proof {
        let rows = out@.skip(base.len() as int);
        assert forall|i: int| #![trigger rows[i]] 0 <= i < rows.len() implies rows[i].holder.slot()
            == active@[i] && holders@.live(rows[i].holder) && rows[i].depth == p
            && rows[i].total_blocks == holders@.blocks(active@[i] as int).len() by {
            assert(rows[i] == out@[base.len() + i]);
            assert(rows_for(holders@, p, seq![active@[i]], seq![out@[base.len() + i]]));
            assert(seq![out@[base.len() + i]][0] == rows[i]);
        }
    }
}

/// Rows for exactly the holders of depth `p` extend the answer past `p`.
pub(crate) proof fn settling<P: Placement>(
    t: TableView<P>,
    q: Seq<u64>,
    p: u32,
    end: int,
    gone: Seq<u32>,
    pre: Seq<Overlap>,
    post: Seq<Overlap>,
)
    requires
        0 < p < end,
        settled(t, q, p as int, pre),
        increasing(gone),
        forall|s: u32| #[trigger]
            gone.contains(s) <==> t.occupied(s as int) && depth(t.blocks(s as int), q) == p,
        forall|s: int| #[trigger] t.occupied(s) ==> {
            ||| depth(t.blocks(s), q) <= p
            ||| depth(t.blocks(s), q) >= end
        },
        t.slots.len() <= u32::MAX,
        post.len() == pre.len() + gone.len(),
        post.take(pre.len() as int) =~= pre,
        rows_for(t, p, gone, post.skip(pre.len() as int)),
    ensures
        settled(t, q, end, post),
{
    let rows = post.skip(pre.len() as int);
    assert forall|i: int| 0 <= i < post.len() implies row_of(t, q, #[trigger] post[i])
        && post[i].depth <= p && (i < pre.len() ==> post[i] == pre[i]) && (i >= pre.len()
        ==> post[i] == rows[i - pre.len()] && post[i].depth == p && post[i].holder.slot()
        == gone[i - pre.len()]) by {
        if i < pre.len() {
            assert(post.take(pre.len() as int)[i] == pre[i]);
        } else {
            assert(rows[i - pre.len()] == post[i]);
            assert(gone.contains(gone[i - pre.len()]));
        }
    }
    assert forall|s: int| #[trigger]
        t.occupied(s) && 0 < depth(t.blocks(s), q) < end implies exists|i: int|
        0 <= i < post.len() && (#[trigger] post[i]).holder.slot() == s by {
        if depth(t.blocks(s), q) < p {
            let i = choose|i: int| 0 <= i < pre.len() && (#[trigger] pre[i]).holder.slot() == s;
            assert(post[i] == pre[i]);
        } else {
            assert(s == (s as u32) as int);
            assert(gone.contains(s as u32));
            let i = gone.index_of(s as u32);
            assert(post[pre.len() + i].holder.slot() == s);
        }
    }
}

/// Once the deepest holders have their rows, the query is answered.
pub(crate) proof fn settled_is_answered<P: Placement>(
    t: TableView<P>,
    q: Seq<u64>,
    end: int,
    out: Seq<Overlap>,
)
    requires
        settled(t, q, end, out),
        forall|s: int| #[trigger] t.occupied(s) ==> depth(t.blocks(s), q) < end,
    ensures
        answered(t, q, out),
{
}

/// The holders of the first `p` positions that also hold position `p` are the
/// holders of the first `p + 1`.
pub(crate) proof fn surviving_step<P: Placement>(
    t: TableView<P>,
    q: Seq<u64>,
    p: int,
    active: Seq<u32>,
    run: Seq<u32>,
    next: Seq<u32>,
    gone: Seq<u32>,
)
    requires
        0 <= p < q.len(),
        surviving(t, q, p, active),
        run_at(t, q, p, run),
        increasing(next),
        forall|s: u32| #[trigger] next.contains(s) <==> active.contains(s) && run.contains(s),
        forall|s: u32| #[trigger] gone.contains(s) <==> active.contains(s) && !run.contains(s),
    ensures
        surviving(t, q, p + 1, next),
        forall|s: u32| #[trigger]
            gone.contains(s) <==> t.occupied(s as int) && depth(t.blocks(s as int), q) == p,
{
    assert forall|s: u32| #[trigger]
        next.contains(s) <==> t.occupied(s as int) && depth(t.blocks(s as int), q) >= p + 1 by {
        assert(next.contains(s) <==> active.contains(s) && run.contains(s));
        if t.occupied(s as int) && depth(t.blocks(s as int), q) >= p {
            depth_step(t.blocks(s as int), q, p);
        }
    }
    assert forall|s: u32| #[trigger]
        gone.contains(s) <==> t.occupied(s as int) && depth(t.blocks(s as int), q) == p by {
        assert(gone.contains(s) <==> active.contains(s) && !run.contains(s));
        if t.occupied(s as int) && depth(t.blocks(s as int), q) >= p {
            depth_step(t.blocks(s as int), q, p);
        }
    }
}

/// A run over several positions narrows like a run over one.
pub(crate) proof fn surviving_run<P: Placement>(
    t: TableView<P>,
    q: Seq<u64>,
    p: int,
    end: int,
    active: Seq<u32>,
    run: Seq<u32>,
    next: Seq<u32>,
    gone: Seq<u32>,
)
    requires
        0 <= p < end <= q.len(),
        surviving(t, q, p, active),
        forall|x: int| p <= x < end ==> #[trigger] run_at(t, q, x, run),
        increasing(next),
        forall|s: u32| #[trigger] next.contains(s) <==> active.contains(s) && run.contains(s),
        forall|s: u32| #[trigger] gone.contains(s) <==> active.contains(s) && !run.contains(s),
        t.slots.len() <= u32::MAX,
    ensures
        surviving(t, q, end, next),
        forall|s: u32| #[trigger]
            gone.contains(s) <==> t.occupied(s as int) && depth(t.blocks(s as int), q) == p,
        forall|s: int| #[trigger]
            t.occupied(s) ==> depth(t.blocks(s), q) <= p || depth(t.blocks(s), q) >= end,
    decreases end,
{
    if end == p + 1 {
        assert(run_at(t, q, p, run));
        surviving_step(t, q, p, active, run, next, gone);
    } else {
        surviving_run(t, q, p, end - 1, active, run, next, gone);
        assert(run_at(t, q, end - 1, run));
        let nobody = Seq::<u32>::empty();
        assert forall|s: u32| #[trigger] next.contains(s) <==> next.contains(s) && run.contains(
            s,
        ) by {}
        assert forall|s: u32| #[trigger] nobody.contains(s) <==> next.contains(s) && !run.contains(
            s,
        ) by {
            assert(next.contains(s) ==> run.contains(s));
        }
        surviving_step(t, q, end - 1, next, run, next, nobody);
        assert forall|s: int| #[trigger] t.occupied(s) implies depth(t.blocks(s), q) <= p || depth(
            t.blocks(s),
            q,
        ) >= end by {
            assert(s == (s as u32) as int);
            assert(!nobody.contains(s as u32));
        }
    }
}

/// The holders of the first run hold all of it.
pub(crate) proof fn surviving_first<P: Placement>(
    t: TableView<P>,
    q: Seq<u64>,
    end: int,
    run: Seq<u32>,
)
    requires
        0 < end <= q.len(),
        forall|x: int| 0 <= x < end ==> #[trigger] run_at(t, q, x, run),
        t.slots.len() <= u32::MAX,
    ensures
        surviving(t, q, end, run),
        settled(t, q, end, Seq::<Overlap>::empty()),
    decreases end,
{
    assert(run_at(t, q, end - 1, run));
    assert forall|s: u32| #[trigger] run.contains(s) <==> t.occupied(s as int) && depth(
        t.blocks(s as int),
        q,
    ) >= end by {
        if t.occupied(s as int) {
            let m = t.blocks(s as int);
            depth_is_greatest(m, q);
            if depth(m, q) >= end {
                assert(holds(m, at::<P>(q, end - 1)));
            } else if run.contains(s) {
                let d = depth(m, q);
                assert(run_at(t, q, d, run));
                assert(holds(m, at::<P>(q, d)));
            }
        }
    }
    assert forall|s: int| #[trigger] t.occupied(s) implies !(0 < depth(t.blocks(s), q) < end) by {
        let m = t.blocks(s);
        depth_is_greatest(m, q);
        assert(s == (s as u32) as int);
        if 0 < depth(m, q) < end {
            assert(run_at(t, q, 0, run));
            assert(holds(m, at::<P>(q, 0)));
            assert(run.contains(s as u32));
        }
    }
}

} // verus!
