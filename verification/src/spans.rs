//! Membership along a chain: runs of positions that the same holders cover.

use crate::sorted::increasing;
use crate::sorted::member;
use crate::sorted::search;
use vstd::prelude::*;

verus! {

/// `len` positions from `start` on that exactly `holders` cover.
pub(crate) struct Span {
    pub(crate) start: u32,
    pub(crate) len: u32,
    pub(crate) holders: Vec<u32>,
}

/// The position behind the last one of a span.
pub(crate) open spec fn stop(s: Span) -> int {
    s.start + s.len
}

/// A span has positions, and holders in ascending order.
pub(crate) open spec fn sound_span(s: Span) -> bool {
    &&& s.len > 0
    &&& stop(s) <= u32::MAX
    &&& increasing(s.holders@)
    &&& s.holders@.len() > 0
}

/// Spans stand in order, and two that touch differ in their holders.
pub(crate) open spec fn apart(a: Span, b: Span) -> bool {
    stop(a) <= b.start && (stop(a) == b.start ==> a.holders@ != b.holders@)
}

/// The canonical form: maximal runs in ascending order.
pub(crate) open spec fn canonical(s: Seq<Span>) -> bool {
    &&& forall|i: int| 0 <= i < s.len() ==> sound_span(#[trigger] s[i])
    &&& forall|i: int, j: int| 0 <= i < j < s.len() ==> stop(#[trigger] s[i]) <= (#[trigger] s[j]).start
    &&& forall|i: int| #![trigger s[i]] 0 <= i && i + 1 < s.len() ==> apart(s[i], s[i + 1])
}

/// `h` covers position `p`.
pub(crate) open spec fn covers(s: Seq<Span>, p: int, h: u32) -> bool {
    exists|i: int|
        0 <= i < s.len() && (#[trigger] s[i]).start <= p < stop(s[i]) && s[i].holders@.contains(h)
}

/// The covered positions lie in `lo..hi`.
pub(crate) open spec fn inside(s: Seq<Span>, lo: int, hi: int) -> bool {
    forall|i: int| 0 <= i < s.len() ==> lo <= (#[trigger] s[i]).start && stop(s[i]) <= hi
}

/// Spans lie where they cover.
pub(crate) proof fn inside_by_cover(s: Seq<Span>, lo: int, hi: int)
    requires
        canonical(s),
        forall|p: int, h: u32| #[trigger] covers(s, p, h) ==> lo <= p < hi,
    ensures
        inside(s, lo, hi),
{
    assert forall|i: int| 0 <= i < s.len() implies lo <= (#[trigger] s[i]).start && stop(s[i])
        <= hi by {
        assert(sound_span(s[i]));
        let h = s[i].holders@[0];
        assert(s[i].holders@.contains(h));
        assert(covers(s, s[i].start as int, h));
        assert(covers(s, stop(s[i]) - 1, h));
    }
}

/// Whoever covers, covers inside.
pub(crate) proof fn cover_inside(s: Seq<Span>, lo: int, hi: int, p: int, h: u32)
    requires
        inside(s, lo, hi),
        covers(s, p, h),
    ensures
        lo <= p < hi,
        s.len() > 0,
{
}

/// The index of the first span that ends behind `p`.
pub(crate) fn first_behind(s: &Vec<Span>, p: u32) -> (r: usize)
    requires
        canonical(s@),
    ensures
        r <= s@.len(),
        forall|i: int| 0 <= i < r ==> stop(#[trigger] s@[i]) <= p,
        forall|i: int| r <= i < s@.len() ==> stop(#[trigger] s@[i]) > p,
{
    let mut lo: usize = 0;
    let mut hi: usize = s.len();
    while lo < hi
        invariant
            lo <= hi <= s@.len(),
            canonical(s@),
            forall|i: int| 0 <= i < lo ==> stop(#[trigger] s@[i]) <= p,
            forall|i: int| hi <= i < s@.len() ==> stop(#[trigger] s@[i]) > p,
        decreases hi - lo,
    {
        let mid: usize = lo + (hi - lo) / 2;
        assert(sound_span(s@[mid as int]));
        if s[mid].start + s[mid].len <= p {
            lo = mid + 1;
        } else {
            hi = mid;
        }
    }
    lo
}

/// The span that covers position `p`, if there is one.
pub(crate) fn span_index(s: &Vec<Span>, p: u32) -> (r: Option<usize>)
    requires
        canonical(s@),
    ensures
        match r {
            Some(i) => i < s@.len() && s@[i as int].start <= p < stop(s@[i as int]),
            None => forall|i: int| 0 <= i < s@.len() ==> !((#[trigger] s@[i]).start <= p < stop(s@[i])),
        },
{
    let i = first_behind(s, p);
    if i < s.len() && s[i].start <= p {
        Some(i)
    } else {
        proof {
            assert forall|j: int| 0 <= j < s@.len() implies !((#[trigger] s@[j]).start <= p < stop(
                s@[j],
            )) by {
                if j > i {
                    assert(stop(s@[i as int]) <= s@[j].start);
                }
            }
        }
        None
    }
}

/// Only one span covers a position.
pub(crate) proof fn one_span(s: Seq<Span>, i: int, p: int, h: u32)
    requires
        canonical(s),
        0 <= i < s.len(),
        s[i].start <= p < stop(s[i]),
    ensures
        covers(s, p, h) <==> s[i].holders@.contains(h),
{
    if covers(s, p, h) {
        let j = choose|j: int|
            0 <= j < s.len() && (#[trigger] s[j]).start <= p < stop(s[j])
                && s[j].holders@.contains(h);
        if i < j {
            assert(stop(s[i]) <= s[j].start);
        }
        if j < i {
            assert(stop(s[j]) <= s[i].start);
        }
    }
}

/// Whether `h` covers position `p`.
pub(crate) fn covered(s: &Vec<Span>, p: u32, h: u32) -> (r: bool)
    requires
        canonical(s@),
    ensures
        r == covers(s@, p as int, h),
{
    match span_index(s, p) {
        None => false,
        Some(i) => {
            proof {
                one_span(s@, i as int, p as int, h);
                assert(sound_span(s@[i as int]));
            }
            member(s[i].holders.as_slice(), h)
        },
    }
}

/// Whether two holder lists are the same.
pub(crate) fn same(a: &Vec<u32>, b: &Vec<u32>) -> (r: bool)
    ensures
        r == (a@ == b@),
{
    if a.len() != b.len() {
        return false;
    }
    let mut i: usize = 0;
    while i < a.len()
        invariant
            i <= a@.len(),
            a@.len() == b@.len(),
            forall|j: int| 0 <= j < i ==> a@[j] == b@[j],
        decreases a@.len() - i,
    {
        if a[i] != b[i] {
            return false;
        }
        i = i + 1;
    }
    assert(a@ =~= b@);
    true
}

fn copy(v: &Vec<u32>) -> (r: Vec<u32>)
    ensures
        r@ == v@,
{
    let mut out: Vec<u32> = Vec::new();
    out.extend_from_slice(v.as_slice());
    assert(out@ =~= v@);
    out
}

/// Appends a span behind all others, merging it with the last one if the two
/// make one run.
fn push_merged(s: &mut Vec<Span>, x: Span)
    requires
        canonical(old(s)@),
        sound_span(x),
        forall|i: int| 0 <= i < old(s)@.len() ==> stop(#[trigger] old(s)@[i]) <= x.start,
    ensures
        canonical(final(s)@),
        final(s)@.len() > 0,
        stop(final(s)@.last()) == stop(x),
        final(s)@.last().holders@ == x.holders@,
        forall|i: int| 0 <= i < final(s)@.len() ==> stop(#[trigger] final(s)@[i]) <= stop(x),
        forall|p: int, h: u32| #[trigger]
            covers(final(s)@, p, h) <==> covers(old(s)@, p, h) || (x.start <= p < stop(x)
                && x.holders@.contains(h)),
{
    let ghost pre = s@;
    let n: usize = s.len();
    if n > 0 && s[n - 1].start + s[n - 1].len == x.start && same(&s[n - 1].holders, &x.holders) {
        let len: u32 = s[n - 1].len + x.len;
        s[n - 1].len = len;
        proof {
            let last = n - 1;
            assert(forall|i: int| 0 <= i < last ==> s@[i] == pre[i]);
            assert(stop(s@[last]) == stop(x));
            assert forall|i: int| 0 <= i < s@.len() implies sound_span(#[trigger] s@[i]) by {
                assert(sound_span(pre[i]));
            }
            assert forall|i: int| #![trigger s@[i]] 0 <= i && i + 1 < s@.len() implies apart(
                s@[i],
                s@[i + 1],
            ) by {
                assert(apart(pre[i], pre[i + 1]));
            }
            assert forall|p: int, h: u32| #[trigger] covers(s@, p, h) <==> covers(pre, p, h) || (
            x.start <= p < stop(x) && x.holders@.contains(h)) by {
                if covers(pre, p, h) {
                    let j = choose|j: int|
                        0 <= j < pre.len() && (#[trigger] pre[j]).start <= p < stop(pre[j])
                            && pre[j].holders@.contains(h);
                    assert(s@[j].start <= p < stop(s@[j]) && s@[j].holders@.contains(h));
                }
                if x.start <= p < stop(x) && x.holders@.contains(h) {
                    assert(s@[last].start <= p < stop(s@[last]) && s@[last].holders@.contains(h));
                }
                if covers(s@, p, h) {
                    let j = choose|j: int|
                        0 <= j < s@.len() && (#[trigger] s@[j]).start <= p < stop(s@[j])
                            && s@[j].holders@.contains(h);
                    assert(pre[j].start == s@[j].start);
                    if j < last {
                        assert(pre[j].start <= p < stop(pre[j]) && pre[j].holders@.contains(h));
                    } else if p < stop(pre[last]) {
                        assert(pre[last].start <= p < stop(pre[last]) && pre[last].holders@.contains(
                            h,
                        ));
                    }
                }
            }
        }
    } else {
        let ghost y = x;
        s.push(x);
        proof {
            assert(forall|i: int| 0 <= i < n ==> s@[i] == pre[i]);
            assert(s@[n as int] == y);
            assert forall|i: int| #![trigger s@[i]] 0 <= i && i + 1 < s@.len() implies apart(
                s@[i],
                s@[i + 1],
            ) by {
                if i + 1 < n {
                    assert(apart(pre[i], pre[i + 1]));
                }
            }
            assert forall|p: int, h: u32| #[trigger] covers(s@, p, h) <==> covers(pre, p, h) || (
            y.start <= p < stop(y) && y.holders@.contains(h)) by {
                if covers(pre, p, h) {
                    let j = choose|j: int|
                        0 <= j < pre.len() && (#[trigger] pre[j]).start <= p < stop(pre[j])
                            && pre[j].holders@.contains(h);
                    assert(s@[j].start <= p < stop(s@[j]) && s@[j].holders@.contains(h));
                }
                if y.start <= p < stop(y) && y.holders@.contains(h) {
                    assert(s@[n as int].start <= p < stop(s@[n as int])
                        && s@[n as int].holders@.contains(h));
                }
                if covers(s@, p, h) {
                    let j = choose|j: int|
                        0 <= j < s@.len() && (#[trigger] s@[j]).start <= p < stop(s@[j])
                            && s@[j].holders@.contains(h);
                    if j < n {
                        assert(pre[j].start <= p < stop(pre[j]) && pre[j].holders@.contains(h));
                    }
                }
            }
        }
    }
}

/// Appends a canonical list behind all other spans.
fn append_merged(s: &mut Vec<Span>, tail: Vec<Span>)
    requires
        canonical(old(s)@),
        canonical(tail@),
        forall|i: int, j: int|
            0 <= i < old(s)@.len() && 0 <= j < tail@.len() ==> stop(#[trigger] old(s)@[i])
                <= (#[trigger] tail@[j]).start,
    ensures
        canonical(final(s)@),
        forall|p: int, h: u32| #[trigger]
            covers(final(s)@, p, h) <==> covers(old(s)@, p, h) || covers(tail@, p, h),
{
    let mut tail = tail;
    if tail.len() == 0 {
        return;
    }
    let ghost pre = s@;
    let ghost all = tail@;
    let first = tail.remove(0);
    proof {
        assert(sound_span(all[0]));
        assert forall|i: int| 0 <= i < tail@.len() implies #[trigger] tail@[i] == all[i + 1] by {}
    }
    push_merged(s, first);
    let ghost mid = s@;
    let ghost rest = tail@;
    s.append(&mut tail);
    proof {
        let n = mid.len() as int;
        assert(s@ =~= mid + rest);
        assert forall|i: int| 0 <= i < s@.len() implies sound_span(#[trigger] s@[i]) by {
            if i >= n {
                assert(s@[i] == all[i - n + 1]);
            } else {
                assert(s@[i] == mid[i]);
            }
        }
        assert forall|i: int, j: int| 0 <= i < j < s@.len() implies stop(#[trigger] s@[i]) <= (
        #[trigger] s@[j]).start by {
            if j < n {
                assert(s@[i] == mid[i] && s@[j] == mid[j]);
            } else if i >= n {
                assert(s@[i] == all[i - n + 1] && s@[j] == all[j - n + 1]);
            } else {
                assert(s@[i] == mid[i] && s@[j] == all[j - n + 1]);
                assert(stop(mid[i]) <= stop(all[0]));
                assert(stop(all[0]) <= all[j - n + 1].start);
            }
        }
        assert forall|i: int| #![trigger s@[i]] 0 <= i && i + 1 < s@.len() implies apart(
            s@[i],
            s@[i + 1],
        ) by {
            if i + 1 < n {
                assert(s@[i] == mid[i] && s@[i + 1] == mid[i + 1]);
            } else if i >= n {
                assert(s@[i] == all[i - n + 1] && s@[i + 1] == all[i - n + 2]);
                assert(apart(all[i - n + 1], all[i - n + 1 + 1]));
            } else {
                assert(s@[i] == mid[i] && s@[i + 1] == all[1]);
                assert(apart(all[0int], all[0int + 1]));
                assert(mid[i] == mid.last());
            }
        }
        assert forall|p: int, h: u32| #[trigger] covers(s@, p, h) <==> covers(pre, p, h) || covers(
            all,
            p,
            h,
        ) by {
            assert(covers(mid, p, h) <==> covers(pre, p, h) || (all[0].start <= p < stop(all[0])
                && all[0].holders@.contains(h)));
            if covers(mid, p, h) {
                let j = choose|j: int|
                    0 <= j < mid.len() && (#[trigger] mid[j]).start <= p < stop(mid[j])
                        && mid[j].holders@.contains(h);
                assert(s@[j] == mid[j]);
            }
            if covers(all, p, h) {
                let j = choose|j: int|
                    0 <= j < all.len() && (#[trigger] all[j]).start <= p < stop(all[j])
                        && all[j].holders@.contains(h);
                if j > 0 {
                    assert(s@[n + j - 1] == all[j]);
                } else {
                    assert(covers(mid, p, h));
                }
            }
            if covers(s@, p, h) {
                let j = choose|j: int|
                    0 <= j < s@.len() && (#[trigger] s@[j]).start <= p < stop(s@[j])
                        && s@[j].holders@.contains(h);
                if j < n {
                    assert(s@[j] == mid[j]);
                    assert(covers(mid, p, h));
                    if !covers(pre, p, h) {
                        assert(all[0].start <= p < stop(all[0]));
                    }
                } else {
                    assert(s@[j] == all[j - n + 1]);
                }
            }
        }
    }
}

/// Whether `h` covers `x` by the span `cut`.
spec fn cut_covers(cut: Option<Span>, x: int, h: u32) -> bool {
    cut is Some && cut->0.start <= x < stop(cut->0) && cut->0.holders@.contains(h)
}

/// Parts of a canonical list are canonical, and cover together what it covers.
proof fn parted(pre: Seq<Span>, i: int, p: int)
    requires
        canonical(pre),
        0 <= i <= pre.len(),
        forall|j: int| 0 <= j < i ==> stop(#[trigger] pre[j]) <= p,
    ensures
        canonical(pre.take(i)),
        canonical(pre.skip(i)),
        forall|x: int, h: u32| #[trigger]
            covers(pre, x, h) <==> covers(pre.take(i), x, h) || covers(pre.skip(i), x, h),
        forall|x: int, h: u32| #[trigger] covers(pre.take(i), x, h) ==> x < p,
        forall|j: int| 0 <= j < i ==> stop(#[trigger] pre.take(i)[j]) <= p,
{
    let left = pre.take(i);
    let right = pre.skip(i);
    assert forall|j: int| 0 <= j < left.len() implies #[trigger] left[j] == pre[j] by {}
    assert forall|j: int| 0 <= j < right.len() implies #[trigger] right[j] == pre[i + j] by {}
    assert(canonical(left)) by {
        assert forall|j: int| #![trigger left[j]] 0 <= j && j + 1 < left.len() implies apart(
            left[j],
            left[j + 1],
        ) by {
            assert(apart(pre[j], pre[j + 1]));
        }
    }
    assert(canonical(right)) by {
        assert forall|j: int| #![trigger right[j]] 0 <= j && j + 1 < right.len() implies apart(
            right[j],
            right[j + 1],
        ) by {
            assert(apart(pre[i + j], pre[i + j + 1]));
        }
    }
    assert forall|x: int, h: u32| #[trigger] covers(pre, x, h) <==> covers(left, x, h) || covers(
        right,
        x,
        h,
    ) by {
        if covers(pre, x, h) {
            let j = choose|j: int|
                0 <= j < pre.len() && (#[trigger] pre[j]).start <= x < stop(pre[j])
                    && pre[j].holders@.contains(h);
            if j < i {
                assert(left[j] == pre[j]);
            } else {
                assert(right[j - i] == pre[j]);
            }
        }
        if covers(left, x, h) {
            let j = choose|j: int|
                0 <= j < left.len() && (#[trigger] left[j]).start <= x < stop(left[j])
                    && left[j].holders@.contains(h);
            assert(left[j] == pre[j]);
        }
        if covers(right, x, h) {
            let j = choose|j: int|
                0 <= j < right.len() && (#[trigger] right[j]).start <= x < stop(right[j])
                    && right[j].holders@.contains(h);
            assert(right[j] == pre[i + j]);
        }
    }
    assert forall|x: int, h: u32| #[trigger] covers(left, x, h) implies x < p by {
        let j = choose|j: int|
            0 <= j < left.len() && (#[trigger] left[j]).start <= x < stop(left[j])
                && left[j].holders@.contains(h);
        assert(left[j] == pre[j]);
    }
}

/// Takes position `p` and everything behind it off the list: the span over `p`,
/// if there is one, and the spans behind `p`.
fn cut_at(s: &mut Vec<Span>, p: u32) -> (r: (Option<Span>, Vec<Span>))
    requires
        canonical(old(s)@),
    ensures
        canonical(final(s)@),
        canonical(r.1@),
        forall|j: int| 0 <= j < final(s)@.len() ==> stop(#[trigger] final(s)@[j]) <= p,
        forall|j: int| 0 <= j < r.1@.len() ==> (#[trigger] r.1@[j]).start > p,
        forall|x: int, h: u32| #[trigger] covers(final(s)@, x, h) ==> x < p,
        forall|x: int, h: u32| #[trigger] covers(r.1@, x, h) ==> x > p,
        forall|x: int, h: u32| #[trigger]
            covers(old(s)@, x, h) <==> covers(final(s)@, x, h) || cut_covers(r.0, x, h) || covers(
                r.1@,
                x,
                h,
            ),
        r.0 is Some ==> {
            &&& sound_span(r.0->0)
            &&& r.0->0.start <= p < stop(r.0->0)
            &&& forall|j: int|
                0 <= j < final(s)@.len() ==> stop(#[trigger] final(s)@[j]) <= r.0->0.start
            &&& forall|j: int| 0 <= j < r.1@.len() ==> stop(r.0->0) <= (#[trigger] r.1@[j]).start
        },
{
    let ghost pre = s@;
    let i = first_behind(s, p);
    let mut tail = s.split_off(i);
    let ghost right = tail@;
    proof {
        assert(s@ =~= pre.take(i as int));
        assert(right =~= pre.skip(i as int));
        parted(pre, i as int, p as int);
        assert forall|j: int| 0 <= j < right.len() implies #[trigger] right[j] == pre[i + j] by {}
    }
    if tail.len() > 0 && tail[0].start <= p {
        let c = tail.remove(0);
        proof {
            assert(c == right[0]);
            assert(tail@ =~= right.skip(1));
            assert forall|j: int| 0 <= j < tail@.len() implies #[trigger] tail@[j] == right[j
                + 1] by {}
            parted(right, 1, stop(c));
            assert(stop(c) > p) by {
                assert(right[0] == pre[i as int]);
            }
            assert forall|j: int| 0 <= j < s@.len() implies stop(#[trigger] s@[j]) <= c.start by {
                assert(s@[j] == pre[j] && right[0] == pre[i as int]);
            }
            assert forall|j: int| 0 <= j < tail@.len() implies stop(c) <= (
            #[trigger] tail@[j]).start by {
                assert(tail@[j] == right[j + 1]);
                assert(stop(right[0]) <= right[j + 1].start);
            }
            let one = right.take(1);
            assert forall|x: int, h: u32| #[trigger] covers(one, x, h) <==> cut_covers(
                Some(c),
                x,
                h,
            ) by {
                assert(one[0] == c);
            }
            assert forall|x: int, h: u32| #[trigger] covers(tail@, x, h) implies x > p by {
                let j = choose|j: int|
                    0 <= j < tail@.len() && (#[trigger] tail@[j]).start <= x < stop(tail@[j])
                        && tail@[j].holders@.contains(h);
            }
            assert forall|x: int, h: u32| #[trigger] covers(pre, x, h) <==> covers(s@, x, h)
                || cut_covers(Some(c), x, h) || covers(tail@, x, h) by {
                assert(covers(pre, x, h) <==> covers(s@, x, h) || covers(right, x, h));
                assert(covers(right, x, h) <==> covers(one, x, h) || covers(right.skip(1), x, h));
                assert(covers(one, x, h) <==> cut_covers(Some(c), x, h));
            }
        }
        (Some(c), tail)
    } else {
        proof {
            assert forall|j: int| 0 <= j < tail@.len() implies (#[trigger] tail@[j]).start > p by {
                if j > 0 {
                    assert(stop(right[0]) <= right[j].start);
                    assert(right[0] == pre[i as int]);
                }
            }
            assert forall|x: int, h: u32| #[trigger] covers(tail@, x, h) implies x > p by {
                let j = choose|j: int|
                    0 <= j < tail@.len() && (#[trigger] tail@[j]).start <= x < stop(tail@[j])
                        && tail@[j].holders@.contains(h);
            }
        }
        (None, tail)
    }
}

/// Replaces the holders of position `p` by `set`.
pub(crate) fn put(s: &mut Vec<Span>, p: u32, set: Vec<u32>)
    requires
        canonical(old(s)@),
        increasing(set@),
        p < u32::MAX,
    ensures
        canonical(final(s)@),
        forall|x: int, h: u32| #[trigger]
            covers(final(s)@, x, h) <==> if x == p {
                set@.contains(h)
            } else {
                covers(old(s)@, x, h)
            },
{
    let ghost pre = s@;
    let (cut, tail) = cut_at(s, p);
    let ghost gap = cut;
    let ghost left = s@;
    let ghost rest = tail@;
    let ghost chosen = set@;
    match &cut {
        None => {},
        Some(c) => {
            if c.start < p {
                push_merged(s, Span { start: c.start, len: p - c.start, holders: copy(&c.holders) });
            }
        },
    }
    let ghost s1 = s@;
    proof {
        assert forall|x: int, h: u32| #[trigger] covers(s1, x, h) <==> covers(left, x, h) || (
        cut_covers(gap, x, h) && x < p) by {}
        assert forall|j: int| 0 <= j < s1.len() implies stop(#[trigger] s1[j]) <= p by {}
    }
    if set.len() > 0 {
        push_merged(s, Span { start: p, len: 1, holders: set });
    }
    let ghost s2 = s@;
    proof {
        assert forall|x: int, h: u32| #[trigger] covers(s2, x, h) <==> covers(s1, x, h) || (x == p
            && chosen.contains(h)) by {}
        assert forall|j: int| 0 <= j < s2.len() implies stop(#[trigger] s2[j]) <= p + 1 by {}
    }
    match cut {
        None => {},
        Some(c) => {
            if c.start + c.len > p + 1 {
                let stop_at: u32 = c.start + c.len;
                push_merged(s, Span { start: p + 1, len: stop_at - (p + 1), holders: c.holders });
            }
        },
    }
    let ghost s3 = s@;
    proof {
        assert forall|x: int, h: u32| #[trigger] covers(s3, x, h) <==> covers(s2, x, h) || (
        cut_covers(gap, x, h) && x > p) by {}
        assert forall|a: int, b: int| 0 <= a < s3.len() && 0 <= b < rest.len() implies stop(
            #[trigger] s3[a],
        ) <= (#[trigger] rest[b]).start by {}
    }
    append_merged(s, tail);
    proof {
        assert forall|x: int, h: u32| #[trigger] covers(s@, x, h) <==> if x == p {
            chosen.contains(h)
        } else {
            covers(pre, x, h)
        } by {
            assert(covers(s@, x, h) <==> covers(s3, x, h) || covers(rest, x, h));
            assert(covers(s3, x, h) <==> covers(s2, x, h) || (cut_covers(gap, x, h) && x > p));
            assert(covers(s2, x, h) <==> covers(s1, x, h) || (x == p && chosen.contains(h)));
            assert(covers(s1, x, h) <==> covers(left, x, h) || (cut_covers(gap, x, h) && x < p));
            assert(covers(pre, x, h) <==> covers(left, x, h) || cut_covers(gap, x, h) || covers(
                rest,
                x,
                h,
            ));
        }
    }
}

/// The holders of position `p`, ascending.
pub(crate) fn holders_at(s: &Vec<Span>, p: u32) -> (r: Vec<u32>)
    requires
        canonical(s@),
    ensures
        increasing(r@),
        forall|h: u32| #[trigger] r@.contains(h) <==> covers(s@, p as int, h),
{
    match span_index(s, p) {
        None => Vec::new(),
        Some(i) => {
            proof {
                assert(sound_span(s@[i as int]));
                assert forall|h: u32| #[trigger] s@[i as int].holders@.contains(h) <==> covers(
                    s@,
                    p as int,
                    h,
                ) by {
                    one_span(s@, i as int, p as int, h);
                }
            }
            copy(&s[i].holders)
        },
    }
}

/// Lets `h` cover position `p` as well. Returns whether nobody did before.
pub(crate) fn cover(s: &mut Vec<Span>, p: u32, h: u32) -> (first: bool)
    requires
        canonical(old(s)@),
        p < u32::MAX,
        !covers(old(s)@, p as int, h),
    ensures
        canonical(final(s)@),
        first == !exists|x: u32| covers(old(s)@, p as int, x),
        forall|x: int, y: u32| #[trigger]
            covers(final(s)@, x, y) <==> covers(old(s)@, x, y) || (x == p && y == h),
{
    let mut set = holders_at(s, p);
    let ghost was = set@;
    let ghost pre = s@;
    let first: bool = set.len() == 0;
    proof {
        if !first {
            assert(was.contains(was[0]));
            assert(covers(s@, p as int, was[0]));
        } else {
            assert forall|x: u32| !covers(s@, p as int, x) by {
                assert(!was.contains(x));
            }
        }
    }
    match search(set.as_slice(), h) {
        Ok(i) => {
            assert(was.contains(was[i as int]));
        },
        Err(i) => {
            set.insert(i, h);
            proof {
                assert forall|x: u32| #[trigger] set@.contains(x) <==> was.contains(x) || x
                    == h by {
                    inserted(was, i as int, h, x);
                }
            }
        },
    }
    put(s, p, set);
    first
}

proof fn inserted(was: Seq<u32>, i: int, h: u32, x: u32)
    requires
        0 <= i <= was.len(),
    ensures
        was.insert(i, h).contains(x) <==> was.contains(x) || x == h,
{
    let set = was.insert(i, h);
    if was.contains(x) {
        let j = was.index_of(x);
        if j < i {
            assert(set[j] == x);
        } else {
            assert(set[j + 1] == x);
        }
    }
    assert(set[i] == h);
    if set.contains(x) {
        let j = set.index_of(x);
        if j < i {
            assert(was[j] == x);
        } else if j > i {
            assert(was[j - 1] == x);
        }
    }
}

proof fn removed(was: Seq<u32>, i: int, x: u32)
    requires
        0 <= i < was.len(),
        increasing(was),
    ensures
        was.remove(i).contains(x) <==> was.contains(x) && x != was[i],
{
    let set = was.remove(i);
    if was.contains(x) && x != was[i] {
        let j = was.index_of(x);
        if j < i {
            assert(set[j] == x);
        } else {
            assert(set[j - 1] == x);
        }
    }
    if set.contains(x) {
        let j = set.index_of(x);
        if j < i {
            assert(was[j] == x);
        } else {
            assert(was[j + 1] == x);
        }
    }
}

/// Lets `h` cover position `p` no more. Returns whether nobody does any more.
pub(crate) fn uncover(s: &mut Vec<Span>, p: u32, h: u32) -> (last: bool)
    requires
        canonical(old(s)@),
        p < u32::MAX,
        covers(old(s)@, p as int, h),
    ensures
        canonical(final(s)@),
        last == !exists|x: u32| x != h && covers(old(s)@, p as int, x),
        forall|x: int, y: u32| #[trigger]
            covers(final(s)@, x, y) <==> covers(old(s)@, x, y) && !(x == p && y == h),
{
    let mut set = holders_at(s, p);
    let ghost was = set@;
    let ghost pre = s@;
    match search(set.as_slice(), h) {
        Ok(i) => {
            set.remove(i);
            proof {
                assert forall|x: u32| #[trigger] set@.contains(x) <==> was.contains(x) && x
                    != h by {
                    removed(was, i as int, x);
                }
            }
        },
        Err(i) => {
            proof {
                assert(was.contains(h));
                let j = was.index_of(h);
                assert(j < i || j >= i);
            }
        },
    }
    let last: bool = set.len() == 0;
    proof {
        if !last {
            assert(set@.contains(set@[0]));
            assert(set@[0] != h && covers(pre, p as int, set@[0]));
        } else {
            assert forall|x: u32| x != h implies !covers(pre, p as int, x) by {
                assert(!set@.contains(x));
            }
        }
    }
    put(s, p, set);
    last
}

} // verus!
