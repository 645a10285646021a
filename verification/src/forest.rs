//! The blocks of a holder as a forest: each block under the one that it
//! continues, chain by chain.

use crate::flat::BlockInfo;
use crate::model::Placement;
use vstd::prelude::*;

verus! {

/// A block: its key, and where it stands. Rows of blocks come by position.
pub type Row = (u64, BlockInfo);

/// Row `j` is continued by row `i`.
pub open spec fn extends(rows: Seq<Row>, j: int, i: int) -> bool {
    rows[j].1.extend(rows[i].1.content) == rows[i].1
}

/// The first row from `j` on that row `i` continues, or `i`.
pub open spec fn parent_from(rows: Seq<Row>, i: int, j: int) -> int
    decreases i - j,
{
    if j >= i || extends(rows, j, i) {
        j
    } else {
        parent_from(rows, i, j + 1)
    }
}

/// The row that row `i` is stored under: the one that it continues. A block whose
/// predecessor is not there follows the row before it.
pub open spec fn parent_row(rows: Seq<Row>, i: int) -> Option<int> {
    if rows[i].1.pos == 0 {
        None
    } else if parent_from(rows, i, 0) < i {
        Some(parent_from(rows, i, 0))
    } else if i > 0 {
        Some(i - 1)
    } else {
        None
    }
}

/// The first row from `j` on that is stored under row `i`, or the end.
pub open spec fn child_from(rows: Seq<Row>, i: int, j: int) -> int
    decreases rows.len() - j,
{
    if j >= rows.len() {
        rows.len() as int
    } else if parent_row(rows, j) == Some(i) {
        j
    } else {
        child_from(rows, i, j + 1)
    }
}

/// The row that goes on from row `i`, or the end.
pub open spec fn child_row(rows: Seq<Row>, i: int) -> int {
    child_from(rows, i, i + 1)
}

/// Row `i` starts a run: nothing goes on to it.
pub open spec fn heads(rows: Seq<Row>, i: int) -> bool {
    match parent_row(rows, i) {
        None => true,
        Some(p) => child_row(rows, p) != i,
    }
}

/// The rows from `i` on, each the one that the last goes on to.
pub open spec fn run(rows: Seq<Row>, i: int) -> Seq<int>
    decreases rows.len() - i,
{
    if 0 <= i < rows.len() {
        if i < child_row(rows, i) <= rows.len() {
            seq![i] + run(rows, child_row(rows, i))
        } else {
            seq![i]
        }
    } else {
        Seq::empty()
    }
}

/// The runs that start in the first `i` rows, in order.
pub open spec fn order(rows: Seq<Row>, i: int) -> Seq<int>
    decreases i,
{
    if i <= 0 {
        Seq::empty()
    } else if heads(rows, i - 1) {
        order(rows, i - 1) + run(rows, i - 1)
    } else {
        order(rows, i - 1)
    }
}

/// A block on its way: key, content, and the block that it is stored under.
#[derive(Debug, Clone, Copy, PartialEq, Eq)]
pub struct Link {
    pub key: u64,
    pub content: u64,
    pub parent: Option<u64>,
}

/// Row `i` on its way.
pub open spec fn link(rows: Seq<Row>, i: int) -> Link {
    Link {
        key: rows[i].0,
        content: rows[i].1.content,
        parent: match parent_row(rows, i) {
            None => None,
            Some(p) => Some(rows[p].0),
        },
    }
}

/// All rows on their way, run by run.
pub open spec fn links_of(rows: Seq<Row>) -> Seq<Link> {
    order(rows, rows.len() as int).map_values(|i: int| link(rows, i))
}

/// The rows come by position, and no position is the last that a number holds.
pub open spec fn by_position(rows: Seq<Row>) -> bool {
    &&& forall|i: int, j: int|
        0 <= i < j < rows.len() ==> (#[trigger] rows[i]).1.pos <= (#[trigger] rows[j]).1.pos
    &&& forall|i: int| 0 <= i < rows.len() ==> (#[trigger] rows[i]).1.pos < u32::MAX
}

pub(crate) proof fn parent_from_is(rows: Seq<Row>, i: int, j: int)
    requires
        0 <= j <= i,
    ensures
        j <= parent_from(rows, i, j) <= i,
        parent_from(rows, i, j) < i ==> extends(rows, parent_from(rows, i, j), i),
        forall|x: int| j <= x < parent_from(rows, i, j) ==> !#[trigger] extends(rows, x, i),
    decreases i - j,
{
    if j < i && !extends(rows, j, i) {
        parent_from_is(rows, i, j + 1);
    }
}

proof fn parent_from_skips(rows: Seq<Row>, i: int, j: int, k: int)
    requires
        0 <= j <= k <= i,
        forall|x: int| j <= x < k ==> !#[trigger] extends(rows, x, i),
    ensures
        parent_from(rows, i, j) == parent_from(rows, i, k),
    decreases k - j,
{
    if j < k {
        assert(!extends(rows, j, i));
        parent_from_skips(rows, i, j + 1, k);
    }
}

pub(crate) proof fn parent_is_earlier(rows: Seq<Row>, i: int)
    requires
        0 <= i < rows.len(),
    ensures
        parent_row(rows, i) matches Some(p) ==> 0 <= p < i,
{
    parent_from_is(rows, i, 0);
}

/// What the child of a row is.
proof fn child_from_is(rows: Seq<Row>, i: int, j: int)
    requires
        0 <= j <= rows.len(),
    ensures
        j <= child_from(rows, i, j) <= rows.len(),
        child_from(rows, i, j) < rows.len() ==> parent_row(rows, child_from(rows, i, j)) == Some(i),
        forall|x: int|
            j <= x < child_from(rows, i, j) ==> #[trigger] parent_row(rows, x) != Some(i),
    decreases rows.len() - j,
{
    if j < rows.len() && parent_row(rows, j) != Some(i) {
        child_from_is(rows, i, j + 1);
    }
}

/// A row that is the first under `i` is its child.
pub(crate) proof fn child_is(rows: Seq<Row>, i: int, c: int)
    requires
        0 <= i < rows.len(),
        i < c <= rows.len(),
        c < rows.len() ==> parent_row(rows, c) == Some(i),
        forall|x: int| i < x < c ==> #[trigger] parent_row(rows, x) != Some(i),
    ensures
        child_row(rows, i) == c,
{
    child_from_is(rows, i, i + 1);
    let d = child_row(rows, i);
    if c < d {
        assert(parent_row(rows, c) != Some(i));
    }
    if d < c {
        assert(parent_row(rows, d) != Some(i));
    }
}

/// A run holds with each row the one that goes on from it.
proof fn run_goes_on(rows: Seq<Row>, h: int, x: int)
    requires
        0 <= h < rows.len(),
        0 <= x < run(rows, h).len(),
    ensures
        h <= run(rows, h)[x] < rows.len(),
        run(rows, h)[0] == h,
        x > 0 ==> parent_row(rows, run(rows, h)[x]) == Some(run(rows, h)[x - 1]),
        child_row(rows, run(rows, h)[x]) < rows.len() ==> x + 1 < run(rows, h).len() && run(
            rows,
            h,
        )[x + 1] == child_row(rows, run(rows, h)[x]),
    decreases rows.len() - h,
{
    let c = child_row(rows, h);
    child_from_is(rows, h, h + 1);
    let tail = run(rows, c);
    assert(run(rows, h) == seq![h] + tail);
    if c < rows.len() {
        assert(tail.len() > 0);
        run_goes_on(rows, c, 0);
    } else {
        assert(tail =~= Seq::empty());
    }
    if x > 0 {
        run_goes_on(rows, c, x - 1);
    }
}

/// The order of the first rows begins the order of more.
pub(crate) proof fn order_grows(rows: Seq<Row>, i: int, j: int)
    requires
        0 <= i <= j,
    ensures
        order(rows, i).len() <= order(rows, j).len(),
        forall|t: int| 0 <= t < order(rows, i).len() ==> #[trigger] order(rows, j)[t] == order(rows, i)[t],
    decreases j - i,
{
    if i < j {
        order_grows(rows, i, j - 1);
    }
}

/// Every row has its turn, no later than the runs that start up to it.
pub(crate) proof fn every_row_comes(rows: Seq<Row>, j: int) -> (t: int)
    requires
        0 <= j < rows.len(),
    ensures
        0 <= t < order(rows, j + 1).len(),
        order(rows, j + 1)[t] == j,
    decreases j, 1int,
{
    let (h, x) = place_of(rows, j);
    order_grows(rows, h + 1, j + 1);
    order(rows, h).len() + x
}

/// The run that a row is on, and where on it.
proof fn place_of(rows: Seq<Row>, j: int) -> (r: (int, int))
    requires
        0 <= j < rows.len(),
    ensures
        0 <= r.0 <= j,
        heads(rows, r.0),
        0 <= r.1 < run(rows, r.0).len(),
        run(rows, r.0)[r.1] == j,
    decreases j, 0int,
{
    if heads(rows, j) {
        child_from_is(rows, j, j + 1);
        assert(run(rows, j)[0] == j);
        (j, 0)
    } else {
        parent_is_earlier(rows, j);
        let p = parent_row(rows, j)->0;
        let (h, x) = place_of(rows, p);
        run_goes_on(rows, h, x);
        (h, x + 1)
    }
}

/// Every row comes after the one that it is stored under.
pub(crate) proof fn parents_come_first(rows: Seq<Row>, n: int, t: int)
    requires
        0 <= n <= rows.len(),
        0 <= t < order(rows, n).len(),
    ensures
        0 <= order(rows, n)[t] < rows.len(),
        parent_row(rows, order(rows, n)[t]) matches Some(p) ==> exists|s: int|
            0 <= s < t && #[trigger] order(rows, n)[s] == p,
    decreases n,
{
    let before = order(rows, n - 1);
    if t < before.len() {
        order_grows(rows, n - 1, n);
        parents_come_first(rows, n - 1, t);
        if parent_row(rows, order(rows, n)[t]) is Some {
            let p = parent_row(rows, order(rows, n)[t])->0;
            let s = choose|s: int| 0 <= s < t && #[trigger] before[s] == p;
            assert(order(rows, n)[s] == p);
        }
    } else {
        let x = t - before.len();
        let own = run(rows, n - 1);
        run_goes_on(rows, n - 1, x);
        assert(order(rows, n)[t] == own[x]);
        if x > 0 {
            assert(order(rows, n)[t - 1] == own[x - 1]);
        } else {
            parent_is_earlier(rows, n - 1);
            if parent_row(rows, n - 1) is Some {
                let p = parent_row(rows, n - 1)->0;
                let s = every_row_comes(rows, p);
                order_grows(rows, p + 1, n - 1);
                order_grows(rows, n - 1, n);
                assert(order(rows, n)[s] == p);
            }
        }
    }
}

/// The row that each row is stored under; the number of rows for none.
fn parents(rows: &Vec<Row>) -> (r: Vec<usize>)
    requires
        by_position(rows@),
    ensures
        r@.len() == rows@.len(),
        forall|i: int|
            0 <= i < rows@.len() ==> match parent_row(rows@, i) {
                None => #[trigger] r@[i] == rows@.len(),
                Some(p) => r@[i] == p,
            },
{
    let n: usize = rows.len();
    let mut r: Vec<usize> = Vec::new();
    // Rows below `low` stand before the position ahead of row `i`.
    let mut low: usize = 0;
    let mut i: usize = 0;
    while i < n
        invariant
            by_position(rows@),
            n == rows@.len(),
            i <= n,
            low <= i,
            r@.len() == i,
            i < n ==> forall|x: int|
                0 <= x < low ==> (#[trigger] rows@[x]).1.pos + 1 < rows@[i as int].1.pos,
            forall|x: int|
                0 <= x < i ==> match parent_row(rows@, x) {
                    None => #[trigger] r@[x] == n,
                    Some(p) => r@[x] == p,
                },
        decreases n - i,
    {
        let own = rows[i].1;
        while low < i && rows[low].1.pos + 1 < own.pos
            invariant
                by_position(rows@),
                n == rows@.len(),
                i < n,
                low <= i,
                own == rows@[i as int].1,
                forall|x: int|
                    0 <= x < low ==> (#[trigger] rows@[x]).1.pos + 1 < rows@[i as int].1.pos,
            decreases i - low,
        {
            low = low + 1;
        }
        let mut j: usize = low;
        while j < i && !continues(&rows[j].1, &own)
            invariant
                by_position(rows@),
                n == rows@.len(),
                i < n,
                low <= j <= i,
                own == rows@[i as int].1,
                forall|x: int| low <= x < j ==> !#[trigger] extends(rows@, x, i as int),
            decreases i - j,
        {
            j = j + 1;
        }
        proof {
            assert forall|x: int| 0 <= x < j implies !#[trigger] extends(rows@, x, i as int) by {
                if x < low {
                    assert(rows@[x].1.pos + 1 < own.pos);
                }
            }
            parent_from_skips(rows@, i as int, 0, j as int);
        }
        let p: usize = if own.pos == 0 {
            n
        } else if j < i {
            j
        } else if i > 0 {
            i - 1
        } else {
            n
        };
        r.push(p);
        proof {
            if i + 1 < n {
                assert forall|x: int| 0 <= x < low implies (#[trigger] rows@[x]).1.pos + 1
                    < rows@[i + 1].1.pos by {
                    assert(rows@[i as int].1.pos <= rows@[i + 1].1.pos);
                }
            }
        }
        i = i + 1;
    }
    r
}

/// Whether `b` continues `a`.
fn continues(a: &BlockInfo, b: &BlockInfo) -> (r: bool)
    requires
        a.pos < u32::MAX,
    ensures
        r == (a.extend(b.content) == *b),
{
    a.pos + 1 == b.pos && crate::lineage::lineage_step(a.lineage, b.content) == b.lineage
}

/// The row that goes on from each row; the number of rows for none.
fn children(rows: &Vec<Row>, parents: &Vec<usize>) -> (r: Vec<usize>)
    requires
        parents@.len() == rows@.len(),
        forall|i: int|
            0 <= i < rows@.len() ==> match parent_row(rows@, i) {
                None => #[trigger] parents@[i] == rows@.len(),
                Some(p) => parents@[i] == p,
            },
    ensures
        r@.len() == rows@.len(),
        forall|i: int| 0 <= i < rows@.len() ==> #[trigger] r@[i] == child_row(rows@, i),
{
    let n: usize = rows.len();
    let mut r: Vec<usize> = Vec::new();
    let mut i: usize = 0;
    while i < n
        invariant
            n == rows@.len(),
            i <= n,
            r@.len() == i,
            forall|x: int| 0 <= x < i ==> #[trigger] r@[x] == n,
        decreases n - i,
    {
        r.push(n);
        i = i + 1;
    }
    let mut j: usize = 0;
    while j < n
        invariant
            n == rows@.len(),
            parents@.len() == n,
            r@.len() == n,
            j <= n,
            forall|x: int|
                0 <= x < n ==> match parent_row(rows@, x) {
                    None => #[trigger] parents@[x] == n,
                    Some(p) => parents@[x] == p,
                },
            forall|x: int|
                0 <= x < n ==> first_under(rows@, x, j as int, #[trigger] r@[x] as int),
        decreases n - j,
    {
        let p: usize = parents[j];
        let ghost was = r@;
        proof {
            parent_is_earlier(rows@, j as int);
        }
        if p < n {
            if r[p] == n {
                r[p] = j;
            }
        }
        proof {
            assert forall|x: int| 0 <= x < n implies first_under(
                rows@,
                x,
                j + 1,
                #[trigger] r@[x] as int,
            ) by {
                assert(first_under(rows@, x, j as int, was[x] as int));
            }
        }
        j = j + 1;
    }
    proof {
        assert forall|x: int| 0 <= x < n implies #[trigger] r@[x] == child_row(rows@, x) by {
            assert(first_under(rows@, x, n as int, r@[x] as int));
            assert forall|y: int| x < y < r@[x] implies #[trigger] parent_row(rows@, y) != Some(
                x,
            ) by {}
            if r@[x] < n {
                parent_is_earlier(rows@, r@[x] as int);
            }
            child_is(rows@, x, r@[x] as int);
        }
    }
    r
}

/// `c` is the first of the first `j` rows under row `i`; the number of rows if
/// there is none.
spec fn first_under(rows: Seq<Row>, i: int, j: int, c: int) -> bool {
    &&& c < j || c == rows.len()
    &&& c < j ==> 0 <= c && parent_row(rows, c) == Some(i)
    &&& forall|x: int| 0 <= x < j && x < c ==> #[trigger] parent_row(rows, x) != Some(i)
}

/// All rows on their way, run by run.
pub(crate) fn links(rows: &Vec<Row>) -> (r: Vec<Link>)
    requires
        by_position(rows@),
    ensures
        r@ == links_of(rows@),
{
    let n: usize = rows.len();
    let parents = parents(rows);
    let next = children(rows, &parents);
    let mut r: Vec<Link> = Vec::new();
    let mut i: usize = 0;
    let ghost f = |i: int| link(rows@, i);
    proof {
        assert(order(rows@, 0).map_values(f) =~= Seq::empty());
    }
    while i < n
        invariant
            n == rows@.len(),
            parents@.len() == n,
            next@.len() == n,
            i <= n,
            f == (|i: int| link(rows@, i)),
            forall|x: int|
                0 <= x < n ==> match parent_row(rows@, x) {
                    None => #[trigger] parents@[x] == n,
                    Some(p) => parents@[x] == p,
                },
            forall|x: int| 0 <= x < n ==> #[trigger] next@[x] == child_row(rows@, x),
            r@ == order(rows@, i as int).map_values(f),
        decreases n - i,
    {
        proof {
            parent_is_earlier(rows@, i as int);
        }
        let head: bool = parents[i] == n || next[parents[i]] != i;
        assert(head == heads(rows@, i as int));
        if head {
            let ghost base = r@;
            let mut c: usize = i;
            proof {
                assert(base + run(rows@, i as int).map_values(f) =~= r@ + run(
                    rows@,
                    c as int,
                ).map_values(f));
            }
            while c < n
                invariant
                    n == rows@.len(),
                    parents@.len() == n,
                    next@.len() == n,
                    i <= c <= n,
                    i < n,
                    f == (|i: int| link(rows@, i)),
                    forall|x: int|
                        0 <= x < n ==> match parent_row(rows@, x) {
                            None => #[trigger] parents@[x] == n,
                            Some(p) => parents@[x] == p,
                        },
                    forall|x: int| 0 <= x < n ==> #[trigger] next@[x] == child_row(rows@, x),
                    base + run(rows@, i as int).map_values(f) == r@ + run(
                        rows@,
                        c as int,
                    ).map_values(f),
                decreases n - c,
            {
                let ghost was = r@;
                let p: usize = parents[c];
                proof {
                    parent_is_earlier(rows@, c as int);
                    child_from_is(rows@, c as int, c + 1);
                }
                let parent: Option<u64> = if p == n {
                    None
                } else {
                    Some(rows[p].0)
                };
                r.push(Link { key: rows[c].0, content: rows[c].1.content, parent });
                proof {
                    let tail = run(rows@, child_row(rows@, c as int));
                    assert(run(rows@, c as int) == seq![c as int] + tail);
                    assert(r@.last() == link(rows@, c as int));
                    assert(was + (seq![c as int] + tail).map_values(f) =~= r@ + tail.map_values(f));
                }
                c = next[c];
            }
            proof {
                assert(run(rows@, c as int).map_values(f) =~= Seq::empty());
                assert(r@ =~= base + run(rows@, i as int).map_values(f));
                assert((order(rows@, i as int) + run(rows@, i as int)).map_values(f) =~= order(
                    rows@,
                    i as int,
                ).map_values(f) + run(rows@, i as int).map_values(f));
            }
        }
        i = i + 1;
    }
    r
}

/// Most blocks that travel together.
pub const SNAPSHOT_CHUNK: usize = 16_384;

/// How many messages `n` links take: at least one.
pub open spec fn share_count(n: int) -> int {
    if n <= 0 {
        1
    } else {
        (n + SNAPSHOT_CHUNK - 1) / SNAPSHOT_CHUNK as int
    }
}

/// Where the share of message `c` in `n` links starts, and that of the one before
/// ends.
pub open spec fn share_start(n: int, c: int) -> int {
    if SNAPSHOT_CHUNK * c < n {
        SNAPSHOT_CHUNK * c
    } else {
        n
    }
}

/// Link `t` continues the one before it.
pub open spec fn joins(links: Seq<Link>, t: int) -> bool {
    t > 0 && links[t].parent == Some(links[t - 1].key)
}

/// Where the last run of the links from `from` to `to` starts: each link of a run
/// continues the one before.
pub open spec fn last_run(links: Seq<Link>, from: int, to: int) -> int
    decreases to - from,
{
    if to - 1 <= from || !joins(links, to - 1) {
        to - 1
    } else {
        last_run(links, from, to - 1)
    }
}

/// What the last run is.
pub(crate) proof fn last_run_is(links: Seq<Link>, from: int, to: int)
    requires
        from < to,
    ensures
        from <= last_run(links, from, to) < to,
        forall|x: int| last_run(links, from, to) < x < to ==> #[trigger] joins(links, x),
    decreases to - from,
{
    if to - 1 > from && joins(links, to - 1) {
        last_run_is(links, from, to - 1);
    }
}

/// A run up to `to` is the last one.
pub(crate) proof fn run_is_last(links: Seq<Link>, from: int, x: int, to: int)
    requires
        from <= x < to,
        x == from || !joins(links, x),
        forall|y: int| x < y < to ==> #[trigger] joins(links, y),
    ensures
        last_run(links, from, to) == x,
    decreases to - x,
{
    if x < to - 1 {
        assert(joins(links, to - 1));
        run_is_last(links, from, x, to - 1);
    }
}

/// Where the run that starts at link `x` ends, no later than at `to`.
pub(crate) fn run_end(links: &Vec<Link>, x: usize, to: usize) -> (r: usize)
    requires
        x < to <= links@.len(),
    ensures
        x < r <= to,
        forall|y: int| x < y < r ==> #[trigger] joins(links@, y),
        r < to ==> !joins(links@, r as int),
{
    let mut r: usize = x + 1;
    while r < to
        invariant
            x < r <= to <= links@.len(),
            forall|y: int| x < y < r ==> #[trigger] joins(links@, y),
        ensures
            r < to ==> !joins(links@, r as int),
        decreases to - r,
    {
        let on: bool = match links[r].parent {
            Some(p) => p == links[r - 1].key,
            None => false,
        };
        if !on {
            break;
        }
        r = r + 1;
    }
    r
}

} // verus!
