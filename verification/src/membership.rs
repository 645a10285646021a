//! Membership of one (position, content) entry, told apart by lineage.

use crate::sorted::increasing;
use crate::sorted::member;
use crate::sorted::search;
use vstd::prelude::*;

verus! {

/// The holders at one entry. One holder of one lineage needs no allocation;
/// shared entries hold one ascending holder list per lineage.
pub(crate) enum Membership {
    One { lineage: u64, holder: u32 },
    /// Ascending by lineage; the holders of each ascending, and never none.
    Many(Vec<(u64, Vec<u32>)>),
}

/// A bucket list in canonical shape.
pub(crate) open spec fn canonical(b: Seq<(u64, Vec<u32>)>) -> bool {
    &&& forall|i: int, j: int| 0 <= i < j < b.len() ==> (#[trigger] b[i]).0 < (#[trigger] b[j]).0
    &&& forall|i: int|
        0 <= i < b.len() ==> increasing((#[trigger] b[i]).1@) && b[i].1@.len() > 0
}

/// Whether a bucket list holds `holder` under `lineage`.
pub(crate) open spec fn bucketed(b: Seq<(u64, Vec<u32>)>, lineage: u64, holder: u32) -> bool {
    exists|i: int| 0 <= i < b.len() && (#[trigger] b[i]).0 == lineage && b[i].1@.contains(holder)
}

/// Where the bucket of `lineage` stands, or where it would have to be inserted.
fn find_bucket(b: &Vec<(u64, Vec<u32>)>, lineage: u64) -> (r: Result<usize, usize>)
    requires
        canonical(b@),
    ensures
        match r {
            Ok(i) => i < b@.len() && b@[i as int].0 == lineage,
            Err(i) => i <= b@.len() && (forall|j: int|
                0 <= j < i ==> (#[trigger] b@[j]).0 < lineage) && (forall|j: int|
                i <= j < b@.len() ==> lineage < (#[trigger] b@[j]).0),
        },
{
    let mut lo: usize = 0;
    let mut hi: usize = b.len();
    while lo < hi
        invariant
            lo <= hi <= b@.len(),
            canonical(b@),
            forall|j: int| 0 <= j < lo ==> (#[trigger] b@[j]).0 < lineage,
            forall|j: int| hi <= j < b@.len() ==> lineage < (#[trigger] b@[j]).0,
        decreases hi - lo,
    {
        let mid: usize = lo + (hi - lo) / 2;
        if b[mid].0 == lineage {
            return Ok(mid);
        }
        if b[mid].0 < lineage {
            lo = mid + 1;
        } else {
            hi = mid;
        }
    }
    Err(lo)
}

/// A bucket list in canonical shape has one bucket per lineage.
proof fn one_bucket(b: Seq<(u64, Vec<u32>)>, i: int, lineage: u64, holder: u32)
    requires
        canonical(b),
        0 <= i < b.len(),
        b[i].0 == lineage,
    ensures
        bucketed(b, lineage, holder) <==> b[i].1@.contains(holder),
{
    if bucketed(b, lineage, holder) {
        let j = choose|j: int|
            0 <= j < b.len() && (#[trigger] b[j]).0 == lineage && b[j].1@.contains(holder);
        assert(i == j || i < j || j < i);
    }
}

/// Adds `holder` to an ascending list that lacks it, at its place.
fn insert_at(v: &mut Vec<u32>, at: usize, holder: u32)
    requires
        increasing(old(v)@),
        at <= old(v)@.len(),
        forall|j: int| 0 <= j < at ==> old(v)@[j] < holder,
        forall|j: int| at <= j < old(v)@.len() ==> holder < old(v)@[j],
    ensures
        increasing(final(v)@),
        final(v)@.len() == old(v)@.len() + 1,
        forall|h: u32| #[trigger]
            final(v)@.contains(h) <==> old(v)@.contains(h) || h == holder,
{
    let ghost pre = v@;
    v.insert(at, holder);
    proof {
        assert forall|h: u32| #[trigger] v@.contains(h) <==> pre.contains(h) || h == holder by {
            if pre.contains(h) {
                let j = pre.index_of(h);
                if j < at {
                    assert(v@[j] == h);
                } else {
                    assert(v@[j + 1] == h);
                }
            }
            if h == holder {
                assert(v@[at as int] == h);
            }
            if v@.contains(h) {
                let j = v@.index_of(h);
                if j < at {
                    assert(pre[j] == h);
                } else if j > at {
                    assert(pre[j - 1] == h);
                }
            }
        }
    }
}

/// Takes the element at `at` out of an ascending list.
fn remove_at(v: &mut Vec<u32>, at: usize)
    requires
        increasing(old(v)@),
        at < old(v)@.len(),
    ensures
        increasing(final(v)@),
        final(v)@.len() == old(v)@.len() - 1,
        forall|h: u32| #[trigger]
            final(v)@.contains(h) <==> old(v)@.contains(h) && h != old(v)@[at as int],
{
    let ghost pre = v@;
    v.remove(at);
    proof {
        assert forall|h: u32| #[trigger] v@.contains(h) <==> pre.contains(h) && h
            != pre[at as int] by {
            if pre.contains(h) && h != pre[at as int] {
                let j = pre.index_of(h);
                if j < at {
                    assert(v@[j] == h);
                } else {
                    assert(v@[j - 1] == h);
                }
            }
            if v@.contains(h) {
                let j = v@.index_of(h);
                if j < at {
                    assert(pre[j] == h);
                } else {
                    assert(pre[j + 1] == h);
                }
            }
        }
    }
}

impl Membership {
    pub(crate) open spec fn wf(self) -> bool {
        match self {
            Membership::One { .. } => true,
            Membership::Many(b) => canonical(b@),
        }
    }

    /// `holder` is a member under `lineage`.
    pub(crate) open spec fn has(self, lineage: u64, holder: u32) -> bool {
        match self {
            Membership::One { lineage: l, holder: h } => l == lineage && h == holder,
            Membership::Many(b) => bucketed(b@, lineage, holder),
        }
    }

    /// Whether `holder` is a member under `lineage`.
    pub(crate) fn contains(&self, lineage: u64, holder: u32) -> (r: bool)
        requires
            self.wf(),
        ensures
            r == self.has(lineage, holder),
    {
        match self {
            Membership::One { lineage: l, holder: h } => *l == lineage && *h == holder,
            Membership::Many(b) => match find_bucket(b, lineage) {
                Ok(i) => {
                    proof {
                        one_bucket(b@, i as int, lineage, holder);
                    }
                    member(b[i].1.as_slice(), holder)
                },
                Err(i) => {
                    assert(!bucketed(b@, lineage, holder)) by {
                        if bucketed(b@, lineage, holder) {
                            let j = choose|j: int|
                                0 <= j < b@.len() && (#[trigger] b@[j]).0 == lineage
                                    && b@[j].1@.contains(holder);
                            assert(j < i || j >= i);
                        }
                    }
                    false
                },
            },
        }
    }

    /// Whether another holder is a member under `lineage`.
    pub(crate) fn lineage_shared_beyond(&self, lineage: u64, holder: u32) -> (r: bool)
        requires
            self.wf(),
        ensures
            r == exists|h: u32| h != holder && #[trigger] self.has(lineage, h),
    {
        match self {
            Membership::One { lineage: l, holder: h } => {
                let r: bool = *l == lineage && *h != holder;
                proof {
                    if r {
                        assert(self.has(lineage, *h));
                    }
                }
                r
            },
            Membership::Many(b) => match find_bucket(b, lineage) {
                Ok(i) => {
                    let v = &b[i].1;
                    proof {
                        assert forall|h: u32| #[trigger] self.has(lineage, h) <==> v@.contains(
                            h,
                        ) by {
                            one_bucket(b@, i as int, lineage, h);
                        }
                    }
                    if v[0] != holder {
                        proof {
                            assert(v@.contains(v@[0]));
                            assert(self.has(lineage, v@[0]));
                        }
                        true
                    } else if v.len() > 1 {
                        proof {
                            assert(v@.contains(v@[1]));
                            assert(self.has(lineage, v@[1]));
                        }
                        true
                    } else {
                        proof {
                            assert forall|h: u32| #[trigger]
                                self.has(lineage, h) implies h == holder by {
                                let j = v@.index_of(h);
                                assert(j == 0);
                            }
                        }
                        false
                    }
                },
                Err(i) => {
                    proof {
                        assert forall|h: u32| !#[trigger] self.has(lineage, h) by {
                            if bucketed(b@, lineage, h) {
                                let j = choose|j: int|
                                    0 <= j < b@.len() && (#[trigger] b@[j]).0 == lineage
                                        && b@[j].1@.contains(h);
                                assert(j < i || j >= i);
                            }
                        }
                    }
                    false
                },
            },
        }
    }

    /// The membership with `holder` under `lineage` as well.
    pub(crate) fn with(self, lineage: u64, holder: u32) -> (r: Membership)
        requires
            self.wf(),
        ensures
            r.wf(),
            forall|l: u64, h: u32| #[trigger]
                r.has(l, h) <==> self.has(l, h) || (l == lineage && h == holder),
    {
        match self {
            Membership::One { lineage: l, holder: h } => {
                if l == lineage && h == holder {
                    return self;
                }
                let mut b: Vec<(u64, Vec<u32>)> = Vec::new();
                if l == lineage {
                    let mut v: Vec<u32> = Vec::new();
                    if h < holder {
                        v.push(h);
                        v.push(holder);
                    } else {
                        v.push(holder);
                        v.push(h);
                    }
                    let ghost s = v@;
                    b.push((l, v));
                    let r = Membership::Many(b);
                    proof {
                        assert forall|x: u64, y: u32| #[trigger] r.has(x, y) <==> self.has(x, y)
                            || (x == lineage && y == holder) by {
                            assert(s.contains(y) <==> y == h || y == holder) by {
                                if y == s[0] {
                                } else if y == s[1] {
                                }
                            }
                            if x == lineage && (y == h || y == holder) {
                                assert(b@[0].1@.contains(y));
                            }
                        }
                    }
                    r
                } else {
                    let mut v1: Vec<u32> = Vec::new();
                    v1.push(h);
                    let mut v2: Vec<u32> = Vec::new();
                    v2.push(holder);
                    let ghost s1 = v1@;
                    let ghost s2 = v2@;
                    if l < lineage {
                        b.push((l, v1));
                        b.push((lineage, v2));
                    } else {
                        b.push((lineage, v2));
                        b.push((l, v1));
                    }
                    let r = Membership::Many(b);
                    proof {
                        assert(s1[0] == h && s2[0] == holder);
                        assert forall|x: u64, y: u32| #[trigger] r.has(x, y) <==> self.has(x, y)
                            || (x == lineage && y == holder) by {
                            assert(s1.contains(y) <==> y == h);
                            assert(s2.contains(y) <==> y == holder);
                            if x == l && y == h {
                                let i: int = if l < lineage {
                                    0
                                } else {
                                    1
                                };
                                assert(b@[i].0 == x && b@[i].1@.contains(y));
                            }
                            if x == lineage && y == holder {
                                let i: int = if l < lineage {
                                    1
                                } else {
                                    0
                                };
                                assert(b@[i].0 == x && b@[i].1@.contains(y));
                            }
                        }
                    }
                    r
                }
            },
            Membership::Many(b) => {
                let mut b = b;
                let ghost pre = b@;
                match find_bucket(&b, lineage) {
                    Ok(i) => {
                        match search(b[i].1.as_slice(), holder) {
                            Ok(at) => {
                                proof {
                                    one_bucket(b@, i as int, lineage, holder);
                                    assert(b@[i as int].1@[at as int] == holder);
                                }
                            },
                            Err(at) => {
                                insert_at(&mut b[i].1, at, holder);
                            },
                        }
                        let r = Membership::Many(b);
                        proof {
                            assert(canonical(b@));
                            assert forall|x: u64, y: u32| #[trigger] r.has(x, y) <==> self.has(x, y)
                                || (x == lineage && y == holder) by {
                                one_bucket(pre, i as int, lineage, y);
                                one_bucket(b@, i as int, lineage, y);
                                if x != lineage {
                                    if bucketed(pre, x, y) {
                                        let j = choose|j: int|
                                            0 <= j < pre.len() && (#[trigger] pre[j]).0 == x
                                                && pre[j].1@.contains(y);
                                        assert(b@[j] == pre[j]);
                                    }
                                    if bucketed(b@, x, y) {
                                        let j = choose|j: int|
                                            0 <= j < b@.len() && (#[trigger] b@[j]).0 == x
                                                && b@[j].1@.contains(y);
                                        assert(b@[j] == pre[j]);
                                    }
                                }
                            }
                        }
                        r
                    },
                    Err(i) => {
                        let mut v: Vec<u32> = Vec::new();
                        v.push(holder);
                        let ghost s = v@;
                        b.insert(i, (lineage, v));
                        let r = Membership::Many(b);
                        proof {
                            assert(s[0] == holder);
                            assert(canonical(b@));
                            assert forall|x: u64, y: u32| #[trigger] r.has(x, y) <==> self.has(x, y)
                                || (x == lineage && y == holder) by {
                                assert(s.contains(y) <==> y == holder);
                                if bucketed(pre, x, y) {
                                    let j = choose|j: int|
                                        0 <= j < pre.len() && (#[trigger] pre[j]).0 == x
                                            && pre[j].1@.contains(y);
                                    if j < i {
                                        assert(b@[j] == pre[j]);
                                    } else {
                                        assert(b@[j + 1] == pre[j]);
                                    }
                                }
                                if x == lineage && y == holder {
                                    assert(b@[i as int].0 == x && b@[i as int].1@.contains(y));
                                }
                                if bucketed(b@, x, y) {
                                    let j = choose|j: int|
                                        0 <= j < b@.len() && (#[trigger] b@[j]).0 == x
                                            && b@[j].1@.contains(y);
                                    if j < i {
                                        assert(b@[j] == pre[j]);
                                    } else if j > i {
                                        assert(b@[j] == pre[j - 1]);
                                    }
                                }
                            }
                        }
                        r
                    },
                }
            },
        }
    }

    /// The membership without `holder` under `lineage`; `None` if nobody is
    /// left.
    pub(crate) fn without(self, lineage: u64, holder: u32) -> (r: Option<Membership>)
        requires
            self.wf(),
        ensures
            match r {
                Some(m) => {
                    &&& m.wf()
                    &&& forall|l: u64, h: u32| #[trigger]
                        m.has(l, h) <==> self.has(l, h) && !(l == lineage && h == holder)
                    &&& exists|l: u64, h: u32| m.has(l, h)
                },
                None => forall|l: u64, h: u32| #[trigger]
                    self.has(l, h) ==> l == lineage && h == holder,
            },
    {
        match self {
            Membership::One { lineage: l, holder: h } => {
                if l == lineage && h == holder {
                    None
                } else {
                    assert(self.has(l, h));
                    Some(self)
                }
            },
            Membership::Many(b) => {
                let mut b = b;
                let ghost pre = b@;
                match find_bucket(&b, lineage) {
                    Ok(i) => {
                        match search(b[i].1.as_slice(), holder) {
                            Ok(at) => {
                                proof {
                                    one_bucket(b@, i as int, lineage, holder);
                                }
                                remove_at(&mut b[i].1, at);
                                let ghost mid = b@;
                                if b[i].1.len() == 0 {
                                    b.remove(i);
                                    proof {
                                        assert(canonical(b@));
                                        assert forall|x: u64, y: u32| #[trigger]
                                            bucketed(b@, x, y) <==> bucketed(pre, x, y) && !(x
                                                == lineage && y == holder) by {
                                            one_bucket(pre, i as int, lineage, y);
                                            assert(!mid[i as int].1@.contains(y));
                                            if bucketed(pre, x, y) && !(x == lineage && y
                                                == holder) {
                                                let j = choose|j: int|
                                                    0 <= j < pre.len() && (#[trigger] pre[j]).0 == x
                                                        && pre[j].1@.contains(y);
                                                if j < i {
                                                    assert(b@[j] == pre[j]);
                                                } else if j > i {
                                                    assert(b@[j - 1] == pre[j]);
                                                }
                                            }
                                            if bucketed(b@, x, y) {
                                                let j = choose|j: int|
                                                    0 <= j < b@.len() && (#[trigger] b@[j]).0 == x
                                                        && b@[j].1@.contains(y);
                                                if j < i {
                                                    assert(b@[j] == pre[j]);
                                                } else {
                                                    assert(b@[j] == pre[j + 1]);
                                                }
                                            }
                                        }
                                    }
                                } else {
                                    proof {
                                        assert(canonical(b@));
                                        assert forall|x: u64, y: u32| #[trigger]
                                            bucketed(b@, x, y) <==> bucketed(pre, x, y) && !(x
                                                == lineage && y == holder) by {
                                            one_bucket(pre, i as int, lineage, y);
                                            one_bucket(b@, i as int, lineage, y);
                                            if x != lineage {
                                                if bucketed(pre, x, y) {
                                                    let j = choose|j: int|
                                                        0 <= j < pre.len() && (#[trigger] pre[j]).0
                                                            == x && pre[j].1@.contains(y);
                                                    assert(b@[j] == pre[j]);
                                                }
                                                if bucketed(b@, x, y) {
                                                    let j = choose|j: int|
                                                        0 <= j < b@.len() && (#[trigger] b@[j]).0
                                                            == x && b@[j].1@.contains(y);
                                                    assert(b@[j] == pre[j]);
                                                }
                                            }
                                        }
                                    }
                                }
                            },
                            Err(at) => {
                                proof {
                                    one_bucket(b@, i as int, lineage, holder);
                                    let v = b@[i as int].1@;
                                    assert(!v.contains(holder)) by {
                                        if v.contains(holder) {
                                            let j = v.index_of(holder);
                                            assert(j < at || j >= at);
                                        }
                                    }
                                }
                            },
                        }
                    },
                    Err(i) => {
                        proof {
                            assert(!bucketed(b@, lineage, holder)) by {
                                if bucketed(b@, lineage, holder) {
                                    let j = choose|j: int|
                                        0 <= j < b@.len() && (#[trigger] b@[j]).0 == lineage
                                            && b@[j].1@.contains(holder);
                                    assert(j < i || j >= i);
                                }
                            }
                        }
                    },
                }
                assert(canonical(b@));
                assert(forall|x: u64, y: u32| #[trigger]
                    bucketed(b@, x, y) <==> bucketed(pre, x, y) && !(x == lineage && y == holder));
                if b.len() == 0 {
                    proof {
                        assert forall|l: u64, h: u32| #[trigger] self.has(l, h) implies l == lineage
                            && h == holder by {
                            assert(!bucketed(b@, l, h));
                        }
                    }
                    None
                } else {
                    let r = Membership::Many(b);
                    proof {
                        let v = b@[0].1@;
                        assert(v.contains(v[0]));
                        assert(bucketed(b@, b@[0].0, v[0]));
                        assert(r.has(b@[0].0, v[0]));
                        assert forall|l: u64, h: u32| #[trigger] r.has(l, h) <==> self.has(l, h)
                            && !(l == lineage && h == holder) by {
                            assert(bucketed(b@, l, h) <==> bucketed(pre, l, h) && !(l == lineage
                                && h == holder));
                        }
                    }
                    Some(r)
                }
            },
        }
    }

    /// The holders under `lineage`, ascending.
    pub(crate) fn run(&self, lineage: u64) -> (r: Vec<u32>)
        requires
            self.wf(),
        ensures
            increasing(r@),
            forall|h: u32| #[trigger] r@.contains(h) <==> self.has(lineage, h),
    {
        let mut out: Vec<u32> = Vec::new();
        match self {
            Membership::One { lineage: l, holder: h } => {
                if *l == lineage {
                    out.push(*h);
                    assert(out@[0] == *h);
                }
            },
            Membership::Many(b) => match find_bucket(b, lineage) {
                Ok(i) => {
                    out.extend_from_slice(b[i].1.as_slice());
                    proof {
                        assert(out@ =~= b@[i as int].1@);
                        assert forall|h: u32| #[trigger] out@.contains(h) <==> self.has(
                            lineage,
                            h,
                        ) by {
                            one_bucket(b@, i as int, lineage, h);
                        }
                    }
                },
                Err(i) => {
                    proof {
                        assert forall|h: u32| #[trigger] out@.contains(h) <==> self.has(
                            lineage,
                            h,
                        ) by {
                            if bucketed(b@, lineage, h) {
                                let j = choose|j: int|
                                    0 <= j < b@.len() && (#[trigger] b@[j]).0 == lineage
                                        && b@[j].1@.contains(h);
                                assert(j < i || j >= i);
                            }
                        }
                    }
                },
            },
        }
        out
    }
}

} // verus!
