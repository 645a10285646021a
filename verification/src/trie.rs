//! The trie of chains: contents stored once, shared by every holder that
//! covers a part of them.

use crate::fx::fx_map;
use crate::fx::hashes_consistently;
use crate::holders::Located;
use crate::lineage::lineage_of;
use crate::lineage::lineage_root;
use crate::lineage::lineage_step;
use crate::lineage::root_of;
use crate::lineage::roots_never_collide;
use crate::spans;
use crate::spans::Span;
use rustc_hash::FxHashMap;
use vstd::prelude::*;

verus! {

/// A position of a chain.
#[derive(Clone, Copy, PartialEq, Eq, Structural)]
pub(crate) struct Spot {
    pub(crate) chain: usize,
    pub(crate) pos: u32,
}

impl Located for Spot {
    open spec fn at(self) -> u32 {
        self.pos
    }

    fn position_of(&self) -> (r: u32) {
        self.pos
    }
}

/// One chain: contiguous contents from `base_pos` on.
pub(crate) struct Chain {
    /// The chain and position that this chain continues; none for a root.
    pub(crate) parent: Option<(usize, u32)>,
    pub(crate) base_pos: u32,
    pub(crate) contents: Vec<u64>,
    /// Fingerprint up to and with the first content.
    pub(crate) start_lineage: u64,
    /// Fingerprint up to and with the last content.
    pub(crate) end_lineage: u64,
    pub(crate) spans: Vec<Span>,
    /// Forks: position on this chain, first content, chain. Ascending.
    pub(crate) children: Vec<(u32, u64, usize)>,
    /// All contents from position 0 to the end of this chain.
    pub(crate) path: Ghost<Seq<u64>>,
}

/// The position behind the last one of a chain.
pub(crate) open spec fn tip(ch: Chain) -> int {
    ch.base_pos + ch.contents@.len()
}

/// Forks in their order.
pub(crate) open spec fn fork_before(a: (u32, u64, usize), b: (u32, u64, usize)) -> bool {
    a.0 < b.0 || (a.0 == b.0 && a.1 < b.1)
}

/// Forks in ascending order.
pub(crate) open spec fn forks_sorted(f: Seq<(u32, u64, usize)>) -> bool {
    forall|i: int, j: int| 0 <= i < j < f.len() ==> fork_before(#[trigger] f[i], #[trigger] f[j])
}

pub(crate) struct Trie {
    pub(crate) chains: Vec<Chain>,
    pub(crate) free_chains: Vec<usize>,
    /// Root chains by their first fingerprint.
    pub(crate) roots: FxHashMap<u64, usize>,
}

impl Trie {
    /// Chain `c` is in use.
    pub(crate) open spec fn alive(&self, c: int) -> bool {
        0 <= c < self.chains@.len() && self.chains@[c].contents@.len() > 0
    }

    /// Chain `c` has position `p`.
    pub(crate) open spec fn node(&self, c: int, p: int) -> bool {
        self.alive(c) && self.chains@[c].base_pos <= p < tip(self.chains@[c])
    }

    /// The contents from position 0 up to and with position `p` of chain `c`.
    pub(crate) open spec fn path(&self, c: int, p: int) -> Seq<u64> {
        self.chains@[c].path@.take(p + 1)
    }

    /// Holder `h` covers position `p` of chain `c`.
    pub(crate) open spec fn covers(&self, c: int, p: int, h: u32) -> bool {
        self.alive(c) && spans::covers(self.chains@[c].spans@, p, h)
    }

    /// Chain `c` is not idle: something covers it, or continues it.
    pub(crate) open spec fn busy(&self, c: int) -> bool {
        self.chains@[c].spans@.len() > 0 || self.chains@[c].children@.len() > 0
    }

    /// `f` is a fork of chain `c`.
    pub(crate) open spec fn forks_to(&self, c: int, f: (u32, u64, usize)) -> bool {
        self.chains@[c].children@.contains(f)
    }

    #[verifier::opaque]
    pub(crate) open spec fn shaped(&self, c: int, limit: int) -> bool {
        let ch = self.chains@[c];
        &&& ch.path@.len() == tip(ch)
        &&& tip(ch) <= limit
        &&& forall|i: int|
            0 <= i < ch.contents@.len() ==> #[trigger] ch.contents@[i] == ch.path@[ch.base_pos + i]
        &&& ch.start_lineage == lineage_of(ch.path@.take(ch.base_pos + 1))
        &&& ch.end_lineage == lineage_of(ch.path@)
        &&& spans::canonical(ch.spans@)
        &&& spans::inside(ch.spans@, ch.base_pos as int, tip(ch))
        &&& forks_sorted(ch.children@)
    }

    /// Chain `c` hangs on its parent, or is a root.
    #[verifier::opaque]
    pub(crate) open spec fn hung(&self, c: int) -> bool {
        let ch = self.chains@[c];
        match ch.parent {
            None => ch.base_pos == 0 && self.roots@.contains_key(ch.start_lineage)
                && self.roots@[ch.start_lineage] == c,
            Some((p, fp)) => {
                &&& self.node(p as int, fp as int)
                &&& ch.base_pos == fp + 1
                &&& ch.path@.take(fp + 1) == self.path(p as int, fp as int)
                &&& self.forks_to(p as int, (fp, ch.contents@[0], c as usize))
            },
        }
    }

    /// The forks of chain `c` lead to chains that hang on it.
    #[verifier::opaque]
    pub(crate) open spec fn bears(&self, c: int) -> bool {
        forall|f: (u32, u64, usize)| #[trigger]
            self.forks_to(c, f) ==> self.alive(f.2 as int) && self.chains@[f.2 as int].parent == Some(
                (c as usize, f.0),
            ) && self.chains@[f.2 as int].contents@[0] == f.1
    }

    /// Roots lead to root chains.
    #[verifier::opaque]
    pub(crate) open spec fn roots_ok(&self) -> bool {
        forall|l: u64| #[trigger]
            self.roots@.contains_key(l) ==> self.alive(self.roots@[l] as int)
                && self.chains@[self.roots@[l] as int].parent is None
                && self.chains@[self.roots@[l] as int].start_lineage == l
    }

    /// No two chains have the same contents up to the same position.
    #[verifier::opaque]
    pub(crate) open spec fn unique(&self) -> bool {
        forall|c: int, d: int, p: int|
            #![trigger self.node(c, p), self.node(d, p)]
            self.node(c, p) && self.node(d, p) && self.path(c, p) == self.path(d, p) ==> c == d
    }

    /// Chains that are not in use are empty and listed, each once.
    #[verifier::opaque]
    pub(crate) open spec fn freed(&self) -> bool {
        &&& forall|c: int|
            0 <= c < self.chains@.len() && !#[trigger] self.alive(c) ==> !self.busy(c)
                && self.free_chains@.contains(c as usize)
        &&& forall|i: int|
            0 <= i < self.free_chains@.len() ==> (#[trigger] self.free_chains@[i])
                < self.chains@.len() && !self.alive(self.free_chains@[i] as int)
        &&& self.free_chains@.no_duplicates()
    }

    /// A sound trie of chains no longer than `limit`.
    pub(crate) open spec fn ok(&self, limit: int) -> bool {
        &&& limit <= u32::MAX
        &&& hashes_consistently(self.roots)
        &&& forall|c: int| #[trigger]
            self.alive(c) ==> self.shaped(c, limit) && self.hung(c) && self.bears(c)
        &&& self.roots_ok()
        &&& self.unique()
        &&& self.freed()
    }

    /// `post` has all positions of `self`, with the same contents.
    pub(crate) open spec fn kept(&self, post: Trie) -> bool {
        forall|c: int, p: int| #[trigger]
            self.node(c, p) ==> post.node(c, p) && post.path(c, p) == self.path(c, p)
    }

    /// The contents up to a spot, or none.
    pub(crate) open spec fn reach(&self, at: Option<Spot>) -> Seq<u64> {
        match at {
            None => Seq::empty(),
            Some(s) => self.path(s.chain as int, s.pos as int),
        }
    }

    /// The position behind a spot, or 0.
    pub(crate) open spec fn ahead(at: Option<Spot>) -> int {
        match at {
            None => 0,
            Some(s) => s.pos + 1,
        }
    }

    pub(crate) fn new() -> (r: Trie)
        ensures
            forall|limit: int| limit <= u32::MAX ==> r.ok(limit),
            r.chains@.len() == 0,
    {
        proof {
            reveal(Trie::roots_ok);
            reveal(Trie::unique);
            reveal(Trie::freed);
        }
        Trie { chains: Vec::new(), free_chains: Vec::new(), roots: fx_map() }
    }

    /// The fork at `fork_pos` whose first content is `content`.
    pub(crate) fn child_at(&self, c: usize, fork_pos: u32, content: u64) -> (r: Result<usize, usize>)
        requires
            c < self.chains@.len(),
            forks_sorted(self.chains@[c as int].children@),
        ensures
            match r {
                Ok(i) => i < self.chains@[c as int].children@.len()
                    && self.chains@[c as int].children@[i as int].0 == fork_pos
                    && self.chains@[c as int].children@[i as int].1 == content,
                Err(i) => {
                    &&& i <= self.chains@[c as int].children@.len()
                    &&& forall|j: int|
                        0 <= j < i ==> fork_before(
                            #[trigger] self.chains@[c as int].children@[j],
                            (fork_pos, content, 0),
                        )
                    &&& forall|j: int|
                        i <= j < self.chains@[c as int].children@.len() ==> fork_before(
                            (fork_pos, content, 0),
                            #[trigger] self.chains@[c as int].children@[j],
                        )
                },
            },
    {
        let f = &self.chains[c].children;
        let mut lo: usize = 0;
        let mut hi: usize = f.len();
        while lo < hi
            invariant
                lo <= hi <= f@.len(),
                forks_sorted(f@),
                f@ == self.chains@[c as int].children@,
                forall|j: int|
                    0 <= j < lo ==> fork_before(#[trigger] f@[j], (fork_pos, content, 0)),
                forall|j: int|
                    hi <= j < f@.len() ==> fork_before((fork_pos, content, 0), #[trigger] f@[j]),
            decreases hi - lo,
        {
            let mid: usize = lo + (hi - lo) / 2;
            let (p, k, d): (u32, u64, usize) = f[mid];
            if p == fork_pos && k == content {
                return Ok(mid);
            }
            if p < fork_pos || (p == fork_pos && k < content) {
                lo = mid + 1;
            } else {
                hi = mid;
            }
        }
        Err(lo)
    }

    /// Position 0 of a root chain has the content that the root is filed under.
    proof fn root_path(&self, limit: int, c: int)
        requires
            self.ok(limit),
            self.alive(c),
            self.chains@[c].parent is None,
        ensures
            self.node(c, 0),
            self.path(c, 0).len() == 1,
            self.chains@[c].start_lineage == root_of(self.path(c, 0)[0]),
    {
        reveal(Trie::shaped);
        reveal(Trie::hung);
        assert(self.hung(c) && self.shaped(c, limit));
    }

    /// A chain with a base position of 0 is a root.
    proof fn base_is_root(&self, limit: int, c: int)
        requires
            self.ok(limit),
            self.alive(c),
            self.chains@[c].base_pos == 0,
        ensures
            self.chains@[c].parent is None,
            self.roots@.contains_key(self.chains@[c].start_lineage),
            self.roots@[self.chains@[c].start_lineage] == c,
    {
        reveal(Trie::hung);
        assert(self.hung(c));
    }

    /// The spot whose contents are those of `at`, followed by `content`.
    pub(crate) fn step(&self, at: Option<Spot>, content: u64, limit: Ghost<int>) -> (r: Option<Spot>)
        requires
            self.ok(limit@),
            at is Some ==> self.node(at->0.chain as int, at->0.pos as int),
        ensures
            match r {
                Some(s) => self.node(s.chain as int, s.pos as int) && s.pos == Self::ahead(at)
                    && self.reach(r) == self.reach(at).push(content),
                None => forall|c: int|
                    !(#[trigger] self.node(c, Self::ahead(at)) && self.path(c, Self::ahead(at))
                        == self.reach(at).push(content)),
            },
    {
        proof {
            reveal(Trie::shaped);
            reveal(Trie::hung);
            reveal(Trie::bears);
            reveal(Trie::roots_ok);
        }
        match at {
            None => {
                let l: u64 = lineage_root(content);
                match self.roots.get(&l) {
                    Some(c) => {
                        proof {
                            assert(self.roots@.contains_key(l));
                            self.root_path(limit@, *c as int);
                            roots_never_collide(self.path(*c as int, 0)[0], content);
                            assert(self.path(*c as int, 0) =~= Seq::<u64>::empty().push(content));
                        }
                        Some(Spot { chain: *c, pos: 0 })
                    },
                    None => {
                        proof {
                            assert forall|c: int|
                                !(#[trigger] self.node(c, 0) && self.path(c, 0)
                                    == Seq::<u64>::empty().push(content)) by {
                                if self.node(c, 0) && self.path(c, 0) == Seq::<u64>::empty().push(
                                    content,
                                ) {
                                    self.base_is_root(limit@, c);
                                    self.root_path(limit@, c);
                                }
                            }
                        }
                        None
                    },
                }
            },
            Some(s) => {
                let ch = &self.chains[s.chain];
                proof {
                    assert(self.shaped(s.chain as int, limit@));
                    assert(self.bears(s.chain as int));
                }
                let i: usize = (s.pos - ch.base_pos) as usize + 1;
                if i < ch.contents.len() && ch.contents[i] == content {
                    proof {
                        let q = self.path(s.chain as int, s.pos + 1);
                        assert(q =~= self.path(s.chain as int, s.pos as int).push(content));
                    }
                    return Some(Spot { chain: s.chain, pos: s.pos + 1 });
                }
                match self.child_at(s.chain, s.pos, content) {
                    Ok(j) => {
                        let d: usize = ch.children[j].2;
                        proof {
                            assert(self.forks_to(s.chain as int, (s.pos, content, d)));
                            assert(self.hung(d as int));
                            assert(self.shaped(d as int, limit@));
                            let q = self.path(d as int, s.pos + 1);
                            assert(q =~= self.path(s.chain as int, s.pos as int).push(content)) by {
                                let dp = self.chains@[d as int].path@;
                                assert(dp.take(s.pos + 1) == self.path(
                                    s.chain as int,
                                    s.pos as int,
                                ));
                                assert forall|x: int| 0 <= x < s.pos + 1 implies dp[x] == self.path(
                                    s.chain as int,
                                    s.pos as int,
                                )[x] by {
                                    assert(dp.take(s.pos + 1)[x] == dp[x]);
                                }
                                assert(self.chains@[d as int].contents@[0] == dp[s.pos + 1]);
                            }
                        }
                        Some(Spot { chain: d, pos: s.pos + 1 })
                    },
                    Err(j) => {
                        proof {
                            self.no_step(limit@, s, content, j as int);
                        }
                        None
                    },
                }
            },
        }
    }

    /// Where neither the chain nor a fork goes on with `content`, nothing does.
    proof fn no_step(&self, limit: int, s: Spot, content: u64, j: int)
        requires
            self.ok(limit),
            self.node(s.chain as int, s.pos as int),
            self.node(s.chain as int, s.pos + 1) ==> self.chains@[s.chain as int].contents@[s.pos + 1
                - self.chains@[s.chain as int].base_pos] != content,
            0 <= j <= self.chains@[s.chain as int].children@.len(),
            forall|x: int|
                0 <= x < j ==> fork_before(
                    #[trigger] self.chains@[s.chain as int].children@[x],
                    (s.pos, content, 0),
                ),
            forall|x: int|
                j <= x < self.chains@[s.chain as int].children@.len() ==> fork_before(
                    (s.pos, content, 0),
                    #[trigger] self.chains@[s.chain as int].children@[x],
                ),
        ensures
            forall|c: int|
                !(#[trigger] self.node(c, s.pos + 1) && self.path(c, s.pos + 1) == self.path(
                    s.chain as int,
                    s.pos as int,
                ).push(content)),
            forall|d: usize| !self.forks_to(s.chain as int, (s.pos, content, d)),
    {
        let ch = self.chains@[s.chain as int];
        assert forall|d: usize| !self.forks_to(s.chain as int, (s.pos, content, d)) by {
            if self.forks_to(s.chain as int, (s.pos, content, d)) {
                let x = ch.children@.index_of((s.pos, content, d));
                assert(ch.children@[x] == (s.pos, content, d));
                assert(x < j || x >= j);
            }
        }
        assert forall|c: int|
            !(#[trigger] self.node(c, s.pos + 1) && self.path(c, s.pos + 1) == self.path(
                s.chain as int,
                s.pos as int,
            ).push(content)) by {
            if self.node(c, s.pos + 1) && self.path(c, s.pos + 1) == self.path(
                s.chain as int,
                s.pos as int,
            ).push(content) {
                self.continues(limit, s, content, c);
            }
        }
    }

    /// Whatever goes on with `content` behind a spot is the rest of its chain
    /// or one of its forks.
    #[verifier::spinoff_prover]
    #[verifier::rlimit(60)]
    proof fn continues(&self, limit: int, s: Spot, content: u64, c: int)
        requires
            self.ok(limit),
            self.node(s.chain as int, s.pos as int),
            self.node(c, s.pos + 1),
            self.path(c, s.pos + 1) == self.path(s.chain as int, s.pos as int).push(content),
        ensures
            self.forks_to(s.chain as int, (s.pos, content, c as usize)) || (c == s.chain
                && self.chains@[c].contents@[s.pos + 1 - self.chains@[c].base_pos] == content),
    {
        let q = self.path(s.chain as int, s.pos as int);
        let d = self.chains@[c];
        assert(d.path@.len() == tip(d) && self.chains@[s.chain as int].path@.len() == tip(
            self.chains@[s.chain as int],
        ) && d.contents@[s.pos + 1 - d.base_pos] == d.path@[s.pos + 1]) by {
            reveal(Trie::shaped);
            assert(self.shaped(c, limit) && self.shaped(s.chain as int, limit));
        }
        assert(q.len() == s.pos + 1);
        assert(self.path(c, s.pos + 1)[s.pos + 1] == content);
        assert(d.path@[s.pos + 1] == content);
        assert(d.path@.take(s.pos + 1) =~= q) by {
            assert forall|x: int| 0 <= x < s.pos + 1 implies d.path@[x] == q[x] by {
                assert(self.path(c, s.pos + 1)[x] == q.push(content)[x]);
            }
        }
        if d.base_pos <= s.pos {
            assert(self.node(c, s.pos as int));
            assert(self.path(c, s.pos as int) == q);
            assert(c == s.chain) by {
                reveal(Trie::unique);
            }
        } else {
            reveal(Trie::hung);
            assert(self.hung(c));
            assert(d.base_pos == s.pos + 1);
            let (p, fp) = d.parent->0;
            assert(self.node(p as int, fp as int));
            assert(self.path(p as int, fp as int) == q);
            assert(p == s.chain) by {
                reveal(Trie::unique);
            }
        }
    }

    /// Fingerprint of the contents up to a spot.
    pub(crate) fn lineage_at(&self, s: Spot, limit: Ghost<int>) -> (r: u64)
        requires
            self.ok(limit@),
            self.node(s.chain as int, s.pos as int),
        ensures
            r == lineage_of(self.path(s.chain as int, s.pos as int)),
    {
        proof {
            reveal(Trie::shaped);
        }
        let ch = &self.chains[s.chain];
        assert(self.shaped(s.chain as int, limit@));
        let mut l: u64 = ch.start_lineage;
        let mut p: u32 = ch.base_pos;
        while p < s.pos
            invariant
                *ch == self.chains@[s.chain as int],
                self.shaped(s.chain as int, limit@),
                self.node(s.chain as int, s.pos as int),
                ch.base_pos <= p <= s.pos,
                l == lineage_of(ch.path@.take(p + 1)),
            decreases s.pos - p,
        {
            proof {
                reveal(Trie::shaped);
            }
            p = p + 1;
            l = lineage_step(l, ch.contents[(p - ch.base_pos) as usize]);
            proof {
                let q = ch.path@.take(p + 1);
                assert(q.drop_last() =~= ch.path@.take(p as int));
                assert(q.last() == ch.path@[p as int]);
            }
        }
        l
    }

    /// Chains other than `n` are as in `pre`, except that the chain of `at` may
    /// have other forks.
    spec fn others_kept(&self, pre: Trie, n: int, at: Option<Spot>) -> bool {
        forall|c: int|
            #![trigger self.chains@[c]]
            0 <= c < pre.chains@.len() && c != n ==> {
                if at is Some && c == at->0.chain {
                    same_but_forks(pre.chains@[c], self.chains@[c])
                } else {
                    self.chains@[c] == pre.chains@[c]
                }
            }
    }

    /// Takes a chain slot that is not in use.
    fn alloc_chain(&mut self, data: Chain) -> (n: usize)
        requires
            old(self).freed(),
            data.contents@.len() > 0,
        ensures
            !old(self).alive(n as int),
            n <= old(self).chains@.len(),
            final(self).chains@ == (if n < old(self).chains@.len() {
                old(self).chains@.update(n as int, data)
            } else {
                old(self).chains@.push(data)
            }),
            final(self).roots == old(self).roots,
            forall|i: int|
                0 <= i < final(self).free_chains@.len() ==> old(self).free_chains@.contains(
                    #[trigger] final(self).free_chains@[i],
                ) && final(self).free_chains@[i] != n,
            forall|c: usize|
                c != n && old(self).free_chains@.contains(c)
                    ==> final(self).free_chains@.contains(c),
            final(self).free_chains@.no_duplicates(),
    {
        proof {
            reveal(Trie::freed);
        }
        let ghost was = self.free_chains@;
        match self.free_chains.pop() {
            Some(c) => {
                proof {
                    assert(was[was.len() - 1] == c);
                    assert forall|i: int| 0 <= i < self.free_chains@.len() implies was.contains(
                        #[trigger] self.free_chains@[i],
                    ) && self.free_chains@[i] != c by {
                        assert(was[i] == self.free_chains@[i]);
                    }
                    assert forall|d: usize| d != c && was.contains(
                        d,
                    ) implies self.free_chains@.contains(d) by {
                        let i = was.index_of(d);
                        assert(self.free_chains@[i] == d);
                    }
                }
                self.chains[c] = data;
                c
            },
            None => {
                proof {
                    assert(was.len() == 0);
                }
                self.chains.push(data);
                self.chains.len() - 1
            },
        }
    }

    /// A new chain of one content, hung where nothing went on with it, leaves
    /// a sound trie.
    proof fn grafted(
        self,
        pre: Trie,
        n: int,
        at: Option<Spot>,
        content: u64,
        lineage: u64,
        limit: int,
        j: int,
    )
        requires
            pre.ok(limit),
            at is Some ==> pre.node(at->0.chain as int, at->0.pos as int),
            Self::ahead(at) < limit,
            lineage == lineage_of(pre.reach(at).push(content)),
            forall|c: int|
                !(#[trigger] pre.node(c, Self::ahead(at)) && pre.path(c, Self::ahead(at))
                    == pre.reach(at).push(content)),
            0 <= n <= pre.chains@.len(),
            n <= usize::MAX,
            !pre.alive(n),
            self.chains@.len() == if n == pre.chains@.len() {
                n + 1
            } else {
                pre.chains@.len() as int
            },
            self.others_kept(pre, n, at),
            self.chains@[n].parent == (match at {
                None => None::<(usize, u32)>,
                Some(s) => Some((s.chain, s.pos)),
            }),
            self.chains@[n].base_pos == Self::ahead(at),
            self.chains@[n].contents@ == seq![content],
            self.chains@[n].start_lineage == lineage,
            self.chains@[n].end_lineage == lineage,
            self.chains@[n].spans@.len() == 0,
            self.chains@[n].children@.len() == 0,
            self.chains@[n].path@ == pre.reach(at).push(content),
            match at {
                None => self.roots@ == pre.roots@.insert(lineage, n as usize),
                Some(s) => {
                    let f = pre.chains@[s.chain as int].children@;
                    &&& self.roots@ == pre.roots@
                    &&& 0 <= j <= f.len()
                    &&& self.chains@[s.chain as int].children@ == f.insert(
                        j,
                        (s.pos, content, n as usize),
                    )
                    &&& forall|x: int|
                        0 <= x < j ==> fork_before(#[trigger] f[x], (s.pos, content, 0))
                    &&& forall|x: int|
                        j <= x < f.len() ==> fork_before((s.pos, content, 0), #[trigger] f[x])
                },
            },
            hashes_consistently(self.roots),
            forall|i: int|
                0 <= i < self.free_chains@.len() ==> pre.free_chains@.contains(
                    #[trigger] self.free_chains@[i],
                ) && self.free_chains@[i] != n,
            forall|c: usize|
                c != n && pre.free_chains@.contains(c) ==> self.free_chains@.contains(c),
            self.free_chains@.no_duplicates(),
        ensures
            self.ok(limit),
            pre.kept(self),
            self.node(n, Self::ahead(at)),
            self.path(n, Self::ahead(at)) == pre.reach(at).push(content),
            forall|c: int, p: int, h: u32| #[trigger] self.covers(c, p, h) <==> pre.covers(c, p, h),
            forall|c: int| #[trigger]
                self.alive(c) ==> c == n || (pre.alive(c) && (pre.busy(c) ==> self.busy(c))),
    {
        let a = Self::ahead(at);
        let q = pre.reach(at).push(content);
        assert(pre.chains.len() == pre.chains@.len());
        assert forall|c: int| 0 <= c < pre.chains@.len() && c != n implies same_but_forks(
            pre.chains@[c],
            #[trigger] self.chains@[c],
        ) by {}
        assert forall|c: int| c != n implies #[trigger] self.alive(c) == pre.alive(c) by {
            if 0 <= c < pre.chains@.len() {
                assert(same_but_forks(pre.chains@[c], self.chains@[c]));
            }
        }
        assert(self.alive(n));
        assert forall|c: int, p: int| c != n implies #[trigger] self.node(c, p) == pre.node(c, p)
            && (self.node(c, p) ==> self.path(c, p) == pre.path(c, p)) by {
            assert(self.alive(c) == pre.alive(c));
            if pre.alive(c) {
                assert(same_but_forks(pre.chains@[c], self.chains@[c]));
            }
        }
        assert(q.len() == a + 1) by {
            if at is Some {
                reveal(Trie::shaped);
                assert(pre.shaped(at->0.chain as int, limit));
            }
        }
        assert(self.path(n, a) =~= q);
        assert forall|c: int, f: (u32, u64, usize)| 0 <= c < pre.chains@.len() && c
            != n implies (#[trigger] self.forks_to(c, f) <==> pre.forks_to(c, f) || (at is Some && c
            == at->0.chain && f == (at->0.pos, content, n as usize))) by {
            assert(same_but_forks(pre.chains@[c], self.chains@[c]));
            if at is Some && c == at->0.chain {
                let was = pre.chains@[c].children@;
                let now = self.chains@[c].children@;
                let x = (at->0.pos, content, n as usize);
                if was.contains(f) {
                    let i = was.index_of(f);
                    if i < j {
                        assert(now[i] == f);
                    } else {
                        assert(now[i + 1] == f);
                    }
                }
                assert(now[j] == x);
                if now.contains(f) {
                    let i = now.index_of(f);
                    if i < j {
                        assert(was[i] == f);
                    } else if i > j {
                        assert(was[i - 1] == f);
                    }
                }
            } else {
                assert(self.chains@[c] == pre.chains@[c]);
            }
        }
        assert forall|f: (u32, u64, usize)| !#[trigger] self.forks_to(n, f) by {}
        // Each chain is in shape, hangs, and bears.
        assert forall|c: int| #[trigger] self.alive(c) implies self.shaped(c, limit) by {
            reveal(Trie::shaped);
            if c != n {
                assert(pre.shaped(c, limit));
                assert(same_but_forks(pre.chains@[c], self.chains@[c]));
                if at is Some && c == at->0.chain {
                    let was = pre.chains@[c].children@;
                    let now = self.chains@[c].children@;
                    assert forall|x: int, y: int| 0 <= x < y < now.len() implies fork_before(
                        #[trigger] now[x],
                        #[trigger] now[y],
                    ) by {
                        let ox = if x < j {
                            x
                        } else {
                            x - 1
                        };
                        let oy = if y < j {
                            y
                        } else {
                            y - 1
                        };
                        if x != j {
                            assert(now[x] == was[ox]);
                        }
                        if y != j {
                            assert(now[y] == was[oy]);
                        }
                    }
                }
            } else {
                assert(self.chains@[n].path@.take(a + 1) =~= q);
                assert(self.chains@[n].contents@[0] == q[a]);
            }
        }
        assert forall|c: int| #[trigger] self.alive(c) implies self.hung(c) by {
            reveal(Trie::hung);
            if c != n {
                assert(pre.hung(c));
                assert(same_but_forks(pre.chains@[c], self.chains@[c]));
                match pre.chains@[c].parent {
                    None => {
                        if at is None {
                            assert(pre.chains@[c].start_lineage != lineage) by {
                                if pre.chains@[c].start_lineage == lineage {
                                    reveal(Trie::shaped);
                                    pre.root_path(limit, c);
                                    roots_never_collide(pre.path(c, 0)[0], content);
                                    assert(pre.path(c, 0) =~= q);
                                    assert(pre.node(c, 0));
                                }
                            }
                        }
                    },
                    Some((p, fp)) => {
                        assert(pre.node(p as int, fp as int));
                        assert(self.node(p as int, fp as int));
                        assert(self.forks_to(p as int, (fp, pre.chains@[c].contents@[0], c as usize)));
                    },
                }
            } else {
                match at {
                    None => {},
                    Some(s) => {
                        assert(self.node(s.chain as int, s.pos as int));
                        assert(self.forks_to(s.chain as int, (s.pos, content, n as usize)));
                        assert(self.chains@[n].path@.take(s.pos + 1) =~= pre.path(
                            s.chain as int,
                            s.pos as int,
                        ));
                    },
                }
            }
        }
        assert forall|c: int| #[trigger] self.alive(c) implies self.bears(c) by {
            reveal(Trie::bears);
            if c != n {
                assert(pre.bears(c));
                assert forall|f: (u32, u64, usize)| #[trigger] self.forks_to(c, f) implies self.alive(
                    f.2 as int,
                ) && self.chains@[f.2 as int].parent == Some((c as usize, f.0))
                    && self.chains@[f.2 as int].contents@[0] == f.1 by {
                    if pre.forks_to(c, f) {
                        assert(pre.alive(f.2 as int));
                        assert(same_but_forks(
                            pre.chains@[f.2 as int],
                            self.chains@[f.2 as int],
                        ));
                    }
                }
            }
        }
        assert(self.roots_ok()) by {
            reveal(Trie::roots_ok);
            assert forall|l: u64| #[trigger] self.roots@.contains_key(l) implies self.alive(
                self.roots@[l] as int,
            ) && self.chains@[self.roots@[l] as int].parent is None
                && self.chains@[self.roots@[l] as int].start_lineage == l by {
                if !(at is None && l == lineage) {
                    assert(pre.roots@.contains_key(l));
                    let c = pre.roots@[l] as int;
                    assert(pre.alive(c));
                    assert(same_but_forks(pre.chains@[c], self.chains@[c]));
                }
            }
        }
        assert(self.unique()) by {
            reveal(Trie::unique);
            assert forall|c: int, d: int, p: int|
                #![trigger self.node(c, p), self.node(d, p)]
                self.node(c, p) && self.node(d, p) && self.path(c, p) == self.path(d, p) implies c
                == d by {
                if c != n && d != n {
                    assert(pre.node(c, p) && pre.node(d, p));
                } else if c == n && d != n {
                    assert(pre.node(d, p));
                    assert(p == a);
                } else if d == n && c != n {
                    assert(pre.node(c, p));
                    assert(p == a);
                }
            }
        }
        assert(self.freed()) by {
            reveal(Trie::freed);
            assert forall|c: int| 0 <= c < self.chains@.len() && !#[trigger] self.alive(
                c,
            ) implies !self.busy(c) && self.free_chains@.contains(c as usize) by {
                assert(!pre.alive(c));
                assert(pre.free_chains@.contains(c as usize));
                assert(!(at is Some && c == at->0.chain));
                assert(self.chains@[c] == pre.chains@[c]);
            }
            assert forall|i: int| 0 <= i < self.free_chains@.len() implies (
            #[trigger] self.free_chains@[i]) < self.chains@.len() && !self.alive(
                self.free_chains@[i] as int,
            ) by {
                let c = self.free_chains@[i];
                let k = pre.free_chains@.index_of(c);
                assert(pre.free_chains@[k] == c);
                assert(!pre.alive(c as int));
            }
        }
        assert forall|c: int, p: int, h: u32| #[trigger] self.covers(c, p, h) <==> pre.covers(
            c,
            p,
            h,
        ) by {
            if c != n && 0 <= c < pre.chains@.len() {
                assert(same_but_forks(pre.chains@[c], self.chains@[c]));
            }
        }
        assert forall|c: int| #[trigger] self.alive(c) implies c == n || (pre.alive(c) && (pre.busy(
            c,
        ) ==> self.busy(c))) by {
            if c != n {
                assert(same_but_forks(pre.chains@[c], self.chains@[c]));
            }
        }
    }

    /// One more content at the tip of a chain, where nothing went on with it,
    /// leaves a sound trie.
    proof fn extended(self, pre: Trie, s: Spot, content: u64, lineage: u64, limit: int)
        requires
            pre.ok(limit),
            pre.node(s.chain as int, s.pos as int),
            s.pos + 1 == tip(pre.chains@[s.chain as int]),
            s.pos + 1 < limit,
            lineage == lineage_of(pre.path(s.chain as int, s.pos as int).push(content)),
            forall|c: int|
                !(#[trigger] pre.node(c, s.pos + 1) && pre.path(c, s.pos + 1) == pre.path(
                    s.chain as int,
                    s.pos as int,
                ).push(content)),
            self.roots == pre.roots,
            self.free_chains == pre.free_chains,
            self.chains@.len() == pre.chains@.len(),
            forall|c: int|
                0 <= c < pre.chains@.len() && c != s.chain ==> self.chains@[c] == pre.chains@[c],
            ({
                let a = pre.chains@[s.chain as int];
                let b = self.chains@[s.chain as int];
                &&& b.parent == a.parent
                &&& b.base_pos == a.base_pos
                &&& b.contents@ == a.contents@.push(content)
                &&& b.start_lineage == a.start_lineage
                &&& b.end_lineage == lineage
                &&& b.spans == a.spans
                &&& b.children == a.children
                &&& b.path@ == a.path@.push(content)
            }),
        ensures
            self.ok(limit),
            pre.kept(self),
            self.node(s.chain as int, s.pos + 1),
            self.path(s.chain as int, s.pos + 1) == pre.path(s.chain as int, s.pos as int).push(
                content,
            ),
            forall|c: int, p: int, h: u32| #[trigger] self.covers(c, p, h) <==> pre.covers(c, p, h),
            forall|c: int| #[trigger]
                self.alive(c) ==> pre.alive(c) && (pre.busy(c) ==> self.busy(c)),
    {
        let k = s.chain as int;
        let a = pre.chains@[k];
        let b = self.chains@[k];
        assert(a.path@.len() == s.pos + 1) by {
            reveal(Trie::shaped);
            assert(pre.shaped(k, limit));
        }
        assert(a.path@.take(s.pos + 1) =~= a.path@);
        assert forall|c: int| #[trigger] self.alive(c) == pre.alive(c) by {}
        assert forall|c: int, p: int| #[trigger]
            self.node(c, p) <==> pre.node(c, p) || (c == k && p == s.pos + 1) by {}
        assert forall|c: int, p: int| #[trigger] pre.node(c, p) implies self.path(c, p) == pre.path(
            c,
            p,
        ) by {
            if c == k {
                assert(self.path(c, p) =~= pre.path(c, p));
            }
        }
        assert(self.path(k, s.pos + 1) =~= a.path@.push(content));
        assert forall|c: int, f: (u32, u64, usize)|
            0 <= c < pre.chains@.len() implies #[trigger] self.forks_to(c, f) == pre.forks_to(
            c,
            f,
        ) by {}
        assert forall|c: int| #[trigger] self.alive(c) implies self.shaped(c, limit) by {
            reveal(Trie::shaped);
            assert(pre.shaped(c, limit));
            if c == k {
                assert(b.path@.take(b.base_pos + 1) =~= a.path@.take(a.base_pos + 1));
            }
        }
        assert forall|c: int| #[trigger] self.alive(c) implies self.hung(c) by {
            reveal(Trie::hung);
            assert(pre.hung(c));
            assert(self.chains@[c].contents@[0] == pre.chains@[c].contents@[0]);
            match pre.chains@[c].parent {
                None => {},
                Some((p, fp)) => {
                    assert(pre.node(p as int, fp as int));
                    if c == k {
                        assert(b.path@.take(fp + 1) =~= a.path@.take(fp + 1));
                    }
                    assert(self.forks_to(p as int, (fp, pre.chains@[c].contents@[0], c as usize)));
                },
            }
        }
        assert forall|c: int| #[trigger] self.alive(c) implies self.bears(c) by {
            reveal(Trie::bears);
            assert(pre.bears(c));
            assert forall|f: (u32, u64, usize)| #[trigger] self.forks_to(c, f) implies self.alive(
                f.2 as int,
            ) && self.chains@[f.2 as int].parent == Some((c as usize, f.0))
                && self.chains@[f.2 as int].contents@[0] == f.1 by {
                assert(pre.forks_to(c, f));
                assert(pre.alive(f.2 as int));
            }
        }
        assert(self.roots_ok()) by {
            reveal(Trie::roots_ok);
            assert forall|l: u64| #[trigger] self.roots@.contains_key(l) implies self.alive(
                self.roots@[l] as int,
            ) && self.chains@[self.roots@[l] as int].parent is None
                && self.chains@[self.roots@[l] as int].start_lineage == l by {
                assert(pre.alive(pre.roots@[l] as int));
            }
        }
        assert(self.unique()) by {
            reveal(Trie::unique);
            assert forall|c: int, d: int, p: int|
                #![trigger self.node(c, p), self.node(d, p)]
                self.node(c, p) && self.node(d, p) && self.path(c, p) == self.path(d, p) implies c
                == d by {
                if pre.node(c, p) && pre.node(d, p) {
                } else if pre.node(c, p) {
                    assert(pre.path(c, s.pos + 1) == a.path@.push(content));
                } else if pre.node(d, p) {
                    assert(pre.path(d, s.pos + 1) == a.path@.push(content));
                }
            }
        }
        assert(self.freed()) by {
            reveal(Trie::freed);
            assert forall|c: int| 0 <= c < self.chains@.len() && !#[trigger] self.alive(
                c,
            ) implies !self.busy(c) && self.free_chains@.contains(c as usize) by {
                assert(!pre.alive(c));
            }
            assert forall|i: int| 0 <= i < self.free_chains@.len() implies (
            #[trigger] self.free_chains@[i]) < self.chains@.len() && !self.alive(
                self.free_chains@[i] as int,
            ) by {
                assert(!pre.alive(pre.free_chains@[i] as int));
            }
        }
    }

    /// Whether a fork leaves chain `c` at `fork_pos`.
    fn forks_at(&self, c: usize, fork_pos: u32) -> (r: bool)
        requires
            c < self.chains@.len(),
        ensures
            r <==> exists|i: int|
                0 <= i < self.chains@[c as int].children@.len() && (
                #[trigger] self.chains@[c as int].children@[i]).0 == fork_pos,
    {
        let f = &self.chains[c].children;
        let mut i: usize = 0;
        while i < f.len()
            invariant
                f@ == self.chains@[c as int].children@,
                i <= f@.len(),
                forall|j: int| 0 <= j < i ==> (#[trigger] f@[j]).0 != fork_pos,
            decreases f@.len() - i,
        {
            if f[i].0 == fork_pos {
                return true;
            }
            i = i + 1;
        }
        false
    }

    /// The spot whose contents are those of `at`, followed by `content`; made
    /// if there is none yet.
    pub(crate) fn grow(
        &mut self,
        at: Option<Spot>,
        content: u64,
        lineage: u64,
        limit: Ghost<int>,
    ) -> (r: Spot)
        requires
            old(self).ok(limit@),
            at is Some ==> old(self).node(at->0.chain as int, at->0.pos as int),
            Self::ahead(at) < limit@,
            lineage == lineage_of(old(self).reach(at).push(content)),
        ensures
            final(self).ok(limit@),
            old(self).kept(*final(self)),
            final(self).node(r.chain as int, r.pos as int),
            r.pos == Self::ahead(at),
            final(self).reach(Some(r)) == old(self).reach(at).push(content),
            forall|c: int, p: int, h: u32| #[trigger]
                final(self).covers(c, p, h) <==> old(self).covers(c, p, h),
            forall|c: int| #[trigger]
                final(self).alive(c) ==> c == r.chain || (old(self).alive(c) && (old(self).busy(c)
                    ==> final(self).busy(c))),
    {
        proof {
            reveal(Trie::shaped);
            reveal(Trie::hung);
            reveal(Trie::bears);
        }
        let ghost pre = *self;
        match self.step(at, content, limit) {
            Some(s) => {
                return s;
            },
            None => {},
        }
        let mut contents: Vec<u64> = Vec::new();
        contents.push(content);
        assert(contents@ =~= seq![content]);
        match at {
            None => {
                let c = self.alloc_chain(
                    Chain {
                        parent: None,
                        base_pos: 0,
                        contents,
                        start_lineage: lineage,
                        end_lineage: lineage,
                        spans: Vec::new(),
                        children: Vec::new(),
                        path: Ghost(pre.reach(at).push(content)),
                    },
                );
                self.roots.insert(lineage, c);
                proof {
                    self.grafted(pre, c as int, at, content, lineage, limit@, 0);
                }
                Spot { chain: c, pos: 0 }
            },
            Some(s) => {
                let at_tip: bool = (s.pos - self.chains[s.chain].base_pos) as usize + 1
                    == self.chains[s.chain].contents.len();
                proof {
                    assert(self.shaped(s.chain as int, limit@));
                }
                if at_tip && !self.forks_at(s.chain, s.pos) {
                    let ghost longer = self.chains@[s.chain as int].path@.push(content);
                    let ch = &mut self.chains[s.chain];
                    ch.contents.push(content);
                    ch.end_lineage = lineage;
                    ch.path = Ghost(longer);
                    proof {
                        self.extended(pre, s, content, lineage, limit@);
                    }
                    Spot { chain: s.chain, pos: s.pos + 1 }
                } else {
                    let j: usize = match self.child_at(s.chain, s.pos, content) {
                        Ok(j) => {
                            proof {
                                let d = self.chains@[s.chain as int].children@[j as int].2;
                                assert(self.forks_to(s.chain as int, (s.pos, content, d)));
                                assert(self.hung(d as int) && self.shaped(d as int, limit@));
                                assert(self.bears(s.chain as int));
                                assert(self.path(d as int, s.pos + 1) =~= pre.reach(at).push(
                                    content,
                                )) by {
                                    let dp = self.chains@[d as int].path@;
                                    assert forall|x: int| 0 <= x < s.pos + 1 implies dp[x]
                                        == pre.reach(at)[x] by {
                                        assert(dp.take(s.pos + 1)[x] == dp[x]);
                                    }
                                    assert(self.chains@[d as int].contents@[0] == dp[s.pos + 1]);
                                }
                                assert(self.node(d as int, s.pos + 1));
                                assert(false);
                            }
                            j
                        },
                        Err(j) => j,
                    };
                    let c = self.alloc_chain(
                        Chain {
                            parent: Some((s.chain, s.pos)),
                            base_pos: s.pos + 1,
                            contents,
                            start_lineage: lineage,
                            end_lineage: lineage,
                            spans: Vec::new(),
                            children: Vec::new(),
                            path: Ghost(pre.reach(at).push(content)),
                        },
                    );
                    self.chains[s.chain].children.insert(j, (s.pos, content, c));
                    proof {
                        self.grafted(pre, c as int, at, content, lineage, limit@, j as int);
                    }
                    Spot { chain: c, pos: s.pos + 1 }
                }
            },
        }
    }

    /// Other spans on one chain, inside it, leave a sound trie.
    proof fn respanned(self, pre: Trie, c: int, limit: int)
        requires
            pre.ok(limit),
            pre.alive(c),
            self.roots == pre.roots,
            self.free_chains == pre.free_chains,
            self.chains@.len() == pre.chains@.len(),
            forall|d: int| 0 <= d < pre.chains@.len() && d != c ==> self.chains@[d] == pre.chains@[d],
            same_but_spans(pre.chains@[c], self.chains@[c]),
            spans::canonical(self.chains@[c].spans@),
            forall|p: int, h: u32| #[trigger]
                spans::covers(self.chains@[c].spans@, p, h) ==> pre.node(c, p),
        ensures
            self.ok(limit),
            pre.kept(self),
            self.kept(pre),
            forall|d: int| #[trigger] self.alive(d) == pre.alive(d),
            forall|d: int| d != c && self.alive(d) ==> #[trigger] self.busy(d) == pre.busy(d),
            forall|d: int, p: int, h: u32| d != c ==> #[trigger] self.covers(d, p, h) == pre.covers(d, p, h),
    {
        assert forall|d: int| #[trigger] self.alive(d) == pre.alive(d) by {}
        assert forall|d: int, p: int| #[trigger] self.node(d, p) == pre.node(d, p) && (self.node(
            d,
            p,
        ) ==> self.path(d, p) == pre.path(d, p)) by {}
        assert forall|d: int, f: (u32, u64, usize)|
            0 <= d < pre.chains@.len() implies #[trigger] self.forks_to(d, f) == pre.forks_to(
            d,
            f,
        ) by {}
        assert forall|d: int| #[trigger] self.alive(d) implies self.shaped(d, limit) by {
            reveal(Trie::shaped);
            assert(pre.shaped(d, limit));
            if d == c {
                spans::inside_by_cover(
                    self.chains@[c].spans@,
                    self.chains@[c].base_pos as int,
                    tip(self.chains@[c]),
                );
            }
        }
        assert forall|d: int| #[trigger] self.alive(d) implies self.hung(d) by {
            reveal(Trie::hung);
            assert(pre.hung(d));
            match pre.chains@[d].parent {
                None => {},
                Some((p, fp)) => {
                    assert(pre.node(p as int, fp as int));
                    assert(self.node(p as int, fp as int));
                    assert(self.forks_to(p as int, (fp, pre.chains@[d].contents@[0], d as usize)));
                },
            }
        }
        assert forall|d: int| #[trigger] self.alive(d) implies self.bears(d) by {
            reveal(Trie::bears);
            assert(pre.bears(d));
            assert forall|f: (u32, u64, usize)| #[trigger] self.forks_to(d, f) implies self.alive(
                f.2 as int,
            ) && self.chains@[f.2 as int].parent == Some((d as usize, f.0))
                && self.chains@[f.2 as int].contents@[0] == f.1 by {
                assert(pre.forks_to(d, f));
            }
        }
        assert(self.roots_ok()) by {
            reveal(Trie::roots_ok);
            assert forall|l: u64| #[trigger] self.roots@.contains_key(l) implies self.alive(
                self.roots@[l] as int,
            ) && self.chains@[self.roots@[l] as int].parent is None
                && self.chains@[self.roots@[l] as int].start_lineage == l by {
                assert(pre.alive(pre.roots@[l] as int));
            }
        }
        assert(self.unique()) by {
            reveal(Trie::unique);
            assert forall|a: int, b: int, p: int|
                #![trigger self.node(a, p), self.node(b, p)]
                self.node(a, p) && self.node(b, p) && self.path(a, p) == self.path(b, p) implies a
                == b by {
                assert(pre.node(a, p) && pre.node(b, p));
            }
        }
        assert(self.freed()) by {
            reveal(Trie::freed);
            assert forall|d: int| 0 <= d < self.chains@.len() && !#[trigger] self.alive(
                d,
            ) implies !self.busy(d) && self.free_chains@.contains(d as usize) by {
                assert(!pre.alive(d));
            }
            assert forall|i: int| 0 <= i < self.free_chains@.len() implies (
            #[trigger] self.free_chains@[i]) < self.chains@.len() && !self.alive(
                self.free_chains@[i] as int,
            ) by {
                assert(!pre.alive(pre.free_chains@[i] as int));
            }
        }
    }

    /// Lets `h` cover a spot as well. Returns whether nobody did before.
    pub(crate) fn cover(&mut self, s: Spot, h: u32, limit: Ghost<int>) -> (first: bool)
        requires
            old(self).ok(limit@),
            old(self).node(s.chain as int, s.pos as int),
            !old(self).covers(s.chain as int, s.pos as int, h),
        ensures
            final(self).ok(limit@),
            old(self).kept(*final(self)),
            final(self).kept(*old(self)),
            first == !exists|x: u32| old(self).covers(s.chain as int, s.pos as int, x),
            final(self).chains@.len() == old(self).chains@.len(),
            forall|c: int, p: int, x: u32| #[trigger]
                final(self).covers(c, p, x) <==> old(self).covers(c, p, x) || (c == s.chain && p
                    == s.pos && x == h),
            forall|c: int| #[trigger] final(self).alive(c) == old(self).alive(c),
            forall|c: int|
                c != s.chain && final(self).alive(c) ==> #[trigger] final(self).busy(c) == old(
                    self,
                ).busy(c),
            final(self).busy(s.chain as int),
    {
        proof {
            reveal(Trie::shaped);
        }
        let ghost pre = *self;
        assert(self.shaped(s.chain as int, limit@));
        let first = spans::cover(&mut self.chains[s.chain].spans, s.pos, h);
        proof {
            let c = s.chain as int;
            let was = pre.chains@[c];
            assert forall|p: int, x: u32| #[trigger] spans::covers(
                self.chains@[c].spans@,
                p,
                x,
            ) implies pre.node(c, p) by {
                if spans::covers(was.spans@, p, x) {
                    spans::cover_inside(was.spans@, was.base_pos as int, tip(was), p, x);
                }
            }
            self.respanned(pre, c, limit@);
            assert(spans::covers(self.chains@[c].spans@, s.pos as int, h));
            assert(self.shaped(c, limit@));
            spans::cover_inside(
                self.chains@[c].spans@,
                was.base_pos as int,
                tip(was),
                s.pos as int,
                h,
            );
            if !first {
                let x = choose|x: u32| spans::covers(was.spans@, s.pos as int, x);
                assert(pre.covers(c, s.pos as int, x));
            } else {
                assert forall|x: u32| !pre.covers(c, s.pos as int, x) by {
                    assert(!spans::covers(was.spans@, s.pos as int, x));
                }
            }
        }
        first
    }

    /// Lets `h` cover a spot no more. Returns whether nobody does any more.
    pub(crate) fn uncover(&mut self, s: Spot, h: u32, limit: Ghost<int>) -> (last: bool)
        requires
            old(self).ok(limit@),
            old(self).node(s.chain as int, s.pos as int),
            old(self).covers(s.chain as int, s.pos as int, h),
        ensures
            final(self).ok(limit@),
            old(self).kept(*final(self)),
            final(self).kept(*old(self)),
            last == !exists|x: u32| x != h && old(self).covers(s.chain as int, s.pos as int, x),
            final(self).chains@.len() == old(self).chains@.len(),
            forall|c: int, p: int, x: u32| #[trigger]
                final(self).covers(c, p, x) <==> old(self).covers(c, p, x) && !(c == s.chain && p
                    == s.pos && x == h),
            forall|c: int| #[trigger] final(self).alive(c) == old(self).alive(c),
            forall|c: int|
                c != s.chain && final(self).alive(c) ==> #[trigger] final(self).busy(c) == old(
                    self,
                ).busy(c),
    {
        proof {
            reveal(Trie::shaped);
        }
        let ghost pre = *self;
        assert(self.shaped(s.chain as int, limit@));
        let last = spans::uncover(&mut self.chains[s.chain].spans, s.pos, h);
        proof {
            let c = s.chain as int;
            let was = pre.chains@[c];
            assert forall|p: int, x: u32| #[trigger] spans::covers(
                self.chains@[c].spans@,
                p,
                x,
            ) implies pre.node(c, p) by {
                assert(spans::covers(was.spans@, p, x));
                spans::cover_inside(was.spans@, was.base_pos as int, tip(was), p, x);
            }
            self.respanned(pre, c, limit@);
            if !last {
                let x = choose|x: u32| x != h && spans::covers(was.spans@, s.pos as int, x);
                assert(x != h && pre.covers(c, s.pos as int, x));
            } else {
                assert forall|x: u32| x != h implies !pre.covers(c, s.pos as int, x) by {
                    assert(!(x != h && spans::covers(was.spans@, s.pos as int, x)));
                }
            }
        }
        last
    }

    /// Taking out a chain that nothing covers or continues leaves a sound trie.
    proof fn dropped(self, pre: Trie, c: int, i: int, limit: int)
        requires
            pre.ok(limit),
            pre.alive(c),
            !pre.busy(c),
            self.chains@.len() == pre.chains@.len(),
            self.chains@[c].contents@.len() == 0,
            self.chains@[c].spans@.len() == 0,
            self.chains@[c].children@.len() == 0,
            self.free_chains@ == pre.free_chains@.push(c as usize),
            forall|d: int|
                #![trigger self.chains@[d]]
                0 <= d < pre.chains@.len() && d != c ==> {
                    if pre.chains@[c].parent is Some && d == (pre.chains@[c].parent->0).0 {
                        same_but_forks(self.chains@[d], pre.chains@[d])
                    } else {
                        self.chains@[d] == pre.chains@[d]
                    }
                },
            match pre.chains@[c].parent {
                None => self.roots@ == pre.roots@.remove(pre.chains@[c].start_lineage),
                Some((p, fp)) => {
                    let f = pre.chains@[p as int].children@;
                    &&& self.roots@ == pre.roots@
                    &&& p != c
                    &&& 0 <= i < f.len()
                    &&& f[i] == (fp, pre.chains@[c].contents@[0], c as usize)
                    &&& self.chains@[p as int].children@ == f.remove(i)
                },
            },
            hashes_consistently(self.roots),
        ensures
            self.ok(limit),
            self.kept(pre),
            forall|d: int| #[trigger] self.alive(d) <==> pre.alive(d) && d != c,
            forall|d: int, p: int| d != c && pre.node(d, p) ==> #[trigger] self.node(d, p),
            forall|d: int, p: int, h: u32| #[trigger] self.covers(d, p, h) <==> pre.covers(d, p, h),
            forall|d: int|
                self.alive(d) && !(pre.chains@[c].parent is Some && d == (
                pre.chains@[c].parent->0).0) ==> #[trigger] self.busy(d) == pre.busy(d),
    {
        let up = pre.chains@[c].parent;
        assert(pre.chains.len() == pre.chains@.len());
        assert forall|d: int| 0 <= d < pre.chains@.len() && d != c implies same_but_forks(
            #[trigger] self.chains@[d],
            pre.chains@[d],
        ) by {}
        assert forall|d: int| #[trigger] self.alive(d) <==> pre.alive(d) && d != c by {
            if 0 <= d < pre.chains@.len() && d != c {
                assert(same_but_forks(self.chains@[d], pre.chains@[d]));
            }
        }
        assert forall|d: int, p: int| d != c implies #[trigger] self.node(d, p) == pre.node(d, p)
            && (self.node(d, p) ==> self.path(d, p) == pre.path(d, p)) by {
            assert(self.alive(d) == pre.alive(d));
            if pre.alive(d) {
                assert(same_but_forks(self.chains@[d], pre.chains@[d]));
            }
        }
        assert forall|f: (u32, u64, usize)| !#[trigger] pre.forks_to(c, f) by {}
        assert forall|d: int, f: (u32, u64, usize)| pre.alive(d) && d != c implies (
        #[trigger] self.forks_to(d, f) <==> pre.forks_to(d, f) && f.2 != c) by {
            assert(same_but_forks(self.chains@[d], pre.chains@[d]));
            if pre.forks_to(d, f) && f.2 == c {
                assert(pre.bears(d));
                assert(up == Some((d as usize, f.0)) && pre.chains@[c].contents@[0] == f.1) by {
                    reveal(Trie::bears);
                }
            }
            if up is Some && d == (up->0).0 {
                let was = pre.chains@[d].children@;
                let now = self.chains@[d].children@;
                assert(forks_sorted(was)) by {
                    reveal(Trie::shaped);
                    assert(pre.shaped(d, limit));
                }
                let x = was[i];
                if was.contains(f) && f != x {
                    let k = was.index_of(f);
                    if k < i {
                        assert(now[k] == f);
                    } else {
                        assert(now[k - 1] == f);
                    }
                }
                if now.contains(f) {
                    let k = now.index_of(f);
                    let o = if k < i {
                        k
                    } else {
                        k + 1
                    };
                    assert(was[o] == f);
                    assert(o != i);
                    assert(f != x) by {
                        assert(o < i || i < o);
                        if o < i {
                            assert(fork_before(was[o], was[i]));
                        } else {
                            assert(fork_before(was[i], was[o]));
                        }
                    }
                }
            } else {
                assert(self.chains@[d] == pre.chains@[d]);
            }
        }
        assert forall|d: int| #[trigger] self.alive(d) implies self.shaped(d, limit) by {
            reveal(Trie::shaped);
            assert(pre.shaped(d, limit));
            assert(same_but_forks(self.chains@[d], pre.chains@[d]));
            if up is Some && d == (up->0).0 {
                let was = pre.chains@[d].children@;
                let now = self.chains@[d].children@;
                assert forall|x: int, y: int| 0 <= x < y < now.len() implies fork_before(
                    #[trigger] now[x],
                    #[trigger] now[y],
                ) by {
                    let ox = if x < i {
                        x
                    } else {
                        x + 1
                    };
                    let oy = if y < i {
                        y
                    } else {
                        y + 1
                    };
                    assert(now[x] == was[ox] && now[y] == was[oy]);
                }
            }
        }
        assert forall|d: int| #[trigger] self.alive(d) implies self.hung(d) by {
            reveal(Trie::hung);
            assert(pre.hung(d));
            assert(same_but_forks(self.chains@[d], pre.chains@[d]));
            match pre.chains@[d].parent {
                None => {
                    if up is None {
                        assert(pre.chains@[d].start_lineage != pre.chains@[c].start_lineage) by {
                            assert(pre.hung(c));
                        }
                    }
                },
                Some((p, fp)) => {
                    let e = (fp, pre.chains@[d].contents@[0], d as usize);
                    assert(pre.forks_to(p as int, e));
                    assert(p != c);
                    assert(pre.node(p as int, fp as int));
                    assert(self.node(p as int, fp as int));
                    assert(self.forks_to(p as int, e));
                },
            }
        }
        assert forall|d: int| #[trigger] self.alive(d) implies self.bears(d) by {
            reveal(Trie::bears);
            assert(pre.bears(d));
            assert forall|f: (u32, u64, usize)| #[trigger] self.forks_to(d, f) implies self.alive(
                f.2 as int,
            ) && self.chains@[f.2 as int].parent == Some((d as usize, f.0))
                && self.chains@[f.2 as int].contents@[0] == f.1 by {
                assert(pre.forks_to(d, f));
                assert(pre.alive(f.2 as int));
                assert(same_but_forks(self.chains@[f.2 as int], pre.chains@[f.2 as int]));
            }
        }
        assert(self.roots_ok()) by {
            reveal(Trie::roots_ok);
            assert forall|l: u64| #[trigger] self.roots@.contains_key(l) implies self.alive(
                self.roots@[l] as int,
            ) && self.chains@[self.roots@[l] as int].parent is None
                && self.chains@[self.roots@[l] as int].start_lineage == l by {
                assert(pre.roots@.contains_key(l));
                let d = pre.roots@[l] as int;
                assert(pre.alive(d));
                assert(d != c);
                assert(same_but_forks(self.chains@[d], pre.chains@[d]));
            }
        }
        assert(self.unique()) by {
            reveal(Trie::unique);
            assert forall|a: int, b: int, p: int|
                #![trigger self.node(a, p), self.node(b, p)]
                self.node(a, p) && self.node(b, p) && self.path(a, p) == self.path(b, p) implies a
                == b by {
                assert(self.alive(a) && self.alive(b));
                assert(pre.node(a, p) && pre.node(b, p));
            }
        }
        assert(self.freed()) by {
            reveal(Trie::freed);
            let was = pre.free_chains@;
            let now = self.free_chains@;
            assert forall|d: int| 0 <= d < self.chains@.len() && !#[trigger] self.alive(
                d,
            ) implies !self.busy(d) && self.free_chains@.contains(d as usize) by {
                if d == c {
                    assert(now[was.len() as int] == c as usize);
                } else {
                    assert(!pre.alive(d));
                    let k = was.index_of(d as usize);
                    assert(was.contains(d as usize));
                    assert(now[k] == d as usize);
                    assert(same_but_forks(self.chains@[d], pre.chains@[d]));
                }
            }
            assert forall|k: int| 0 <= k < now.len() implies (#[trigger] now[k])
                < self.chains@.len() && !self.alive(now[k] as int) by {
                if k < was.len() {
                    assert(now[k] == was[k]);
                    assert(!pre.alive(was[k] as int));
                }
            }
            assert forall|x: int, y: int| 0 <= x < now.len() && 0 <= y < now.len() && x
                != y implies now[x] != now[y] by {
                if x < was.len() {
                    assert(!pre.alive(was[x] as int));
                }
                if y < was.len() {
                    assert(!pre.alive(was[y] as int));
                }
            }
        }
        assert forall|d: int, p: int, h: u32| #[trigger] self.covers(d, p, h) <==> pre.covers(
            d,
            p,
            h,
        ) by {
            if d != c && 0 <= d < pre.chains@.len() {
                assert(same_but_forks(self.chains@[d], pre.chains@[d]));
            }
        }
        assert forall|d: int, p: int| #[trigger] self.node(d, p) implies pre.node(d, p)
            && pre.path(d, p) == self.path(d, p) by {
            assert(self.alive(d));
        }
    }

    /// Frees chain `c`, and what only led to it, if nothing covers or continues
    /// it any more.
    pub(crate) fn sweep(&mut self, c: usize, limit: Ghost<int>)
        requires
            old(self).ok(limit@),
            c < old(self).chains@.len(),
            forall|d: int| #[trigger] old(self).alive(d) && d != c ==> old(self).busy(d),
        ensures
            final(self).ok(limit@),
            final(self).kept(*old(self)),
            forall|d: int| #[trigger] final(self).alive(d) ==> final(self).busy(d),
            forall|d: int, p: int, h: u32| #[trigger]
                final(self).covers(d, p, h) <==> old(self).covers(d, p, h),
            forall|d: int, p: int|
                final(self).alive(d) && old(self).node(d, p) ==> #[trigger] final(self).node(d, p),
    {
        let ghost first = *self;
        let mut cur: usize = c;
        while self.chains[cur].contents.len() > 0 && self.chains[cur].spans.len() == 0
            && self.chains[cur].children.len() == 0
            invariant
                self.ok(limit@),
                cur < self.chains@.len(),
                forall|d: int| #[trigger] self.alive(d) && d != cur ==> self.busy(d),
                self.kept(first),
                forall|d: int, p: int, h: u32| #[trigger]
                    self.covers(d, p, h) <==> first.covers(d, p, h),
                forall|d: int, p: int|
                    self.alive(d) && first.node(d, p) ==> #[trigger] self.node(d, p),
            ensures
                forall|d: int| #[trigger] self.alive(d) ==> self.busy(d),
            decreases self.chains@[cur as int].base_pos,
        {
            let ghost pre = *self;
            let parent = self.chains[cur].parent;
            let start: u64 = self.chains[cur].start_lineage;
            let head: u64 = self.chains[cur].contents[0];
            proof {
                assert(pre.alive(cur as int));
                assert(!pre.busy(cur as int));
            }
            match parent {
                None => {
                    self.chains[cur] = empty_chain();
                    self.free_chains.push(cur);
                    self.roots.remove(&start);
                    proof {
                        self.dropped(pre, cur as int, 0, limit@);
                        self.swept(pre, first, cur as int);
                        assert forall|d: int| #[trigger] self.alive(d) implies self.busy(d) by {
                            assert(pre.alive(d) && pre.busy(d));
                        }
                    }
                    break;
                },
                Some((p, fp)) => {
                    proof {
                        reveal(Trie::hung);
                        assert(pre.hung(cur as int));
                        assert(pre.node(p as int, fp as int));
                        assert(pre.forks_to(p as int, (fp, head, cur)));
                    }
                    let i: usize = match self.child_at_sound(p, fp, head, limit) {
                        Ok(i) => i,
                        Err(i) => {
                            proof {
                                let f = pre.chains@[p as int].children@;
                                let k = f.index_of((fp, head, cur));
                                assert(f[k] == (fp, head, cur));
                                assert(k < i || k >= i);
                                assert(false);
                            }
                            i
                        },
                    };
                    proof {
                        let f = pre.chains@[p as int].children@;
                        let k = f.index_of((fp, head, cur));
                        assert(f[k] == (fp, head, cur));
                        assert(forks_sorted(f)) by {
                            reveal(Trie::shaped);
                            assert(pre.shaped(p as int, limit@));
                        }
                        assert(k == i) by {
                            if k < i {
                                assert(fork_before(f[k], f[i as int]));
                            }
                            if i < k {
                                assert(fork_before(f[i as int], f[k]));
                            }
                        }
                    }
                    self.chains[p].children.remove(i);
                    self.chains[cur] = empty_chain();
                    self.free_chains.push(cur);
                    proof {
                        self.dropped(pre, cur as int, i as int, limit@);
                        self.swept(pre, first, cur as int);
                        assert forall|d: int| #[trigger]
                            self.alive(d) && d != p implies self.busy(d) by {
                            assert(pre.alive(d) && pre.busy(d));
                        }
                        assert(self.alive(p as int));
                        assert(same_but_forks(self.chains@[p as int], pre.chains@[p as int]));
                    }
                    cur = p;
                },
            }
        }
    }

    /// What a sweep keeps, it keeps step by step.
    proof fn swept(self, pre: Trie, first: Trie, c: int)
        requires
            self.kept(pre),
            pre.kept(first),
            forall|d: int, p: int, h: u32| #[trigger] self.covers(d, p, h) <==> pre.covers(d, p, h),
            forall|d: int, p: int, h: u32| #[trigger] pre.covers(d, p, h) <==> first.covers(d, p, h),
            forall|d: int| #[trigger] self.alive(d) <==> pre.alive(d) && d != c,
            forall|d: int, p: int| d != c && pre.node(d, p) ==> #[trigger] self.node(d, p),
            forall|d: int, p: int| pre.alive(d) && first.node(d, p) ==> #[trigger] pre.node(d, p),
        ensures
            self.kept(first),
            forall|d: int, p: int, h: u32| #[trigger]
                self.covers(d, p, h) <==> first.covers(d, p, h),
            forall|d: int, p: int| self.alive(d) && first.node(d, p) ==> #[trigger] self.node(d, p),
    {
        assert forall|d: int, p: int, h: u32| #[trigger] self.covers(d, p, h) <==> first.covers(
            d,
            p,
            h,
        ) by {
            assert(self.covers(d, p, h) <==> pre.covers(d, p, h));
        }
        assert forall|d: int, p: int| self.alive(d) && first.node(d, p) implies #[trigger] self.node(
            d,
            p,
        ) by {
            assert(pre.alive(d));
            assert(pre.node(d, p));
        }
    }

    /// The fork at `fork_pos` whose first content is `content`, in a sound trie.
    fn child_at_sound(&self, c: usize, fork_pos: u32, content: u64, limit: Ghost<int>) -> (r: Result<
        usize,
        usize,
    >)
        requires
            self.ok(limit@),
            self.alive(c as int),
        ensures
            match r {
                Ok(i) => i < self.chains@[c as int].children@.len()
                    && self.chains@[c as int].children@[i as int].0 == fork_pos
                    && self.chains@[c as int].children@[i as int].1 == content,
                Err(i) => {
                    &&& i <= self.chains@[c as int].children@.len()
                    &&& forall|j: int|
                        0 <= j < i ==> fork_before(
                            #[trigger] self.chains@[c as int].children@[j],
                            (fork_pos, content, 0),
                        )
                    &&& forall|j: int|
                        i <= j < self.chains@[c as int].children@.len() ==> fork_before(
                            (fork_pos, content, 0),
                            #[trigger] self.chains@[c as int].children@[j],
                        )
                },
            },
    {
        proof {
            reveal(Trie::shaped);
            assert(self.shaped(c as int, limit@));
        }
        self.child_at(c, fork_pos, content)
    }
}

/// A chain slot that is not in use.
fn empty_chain() -> (r: Chain)
    ensures
        r.parent is None,
        r.base_pos == 0,
        r.contents@.len() == 0,
        r.start_lineage == 0,
        r.end_lineage == 0,
        r.spans@.len() == 0,
        r.children@.len() == 0,
        r.path@.len() == 0,
{
    Chain {
        parent: None,
        base_pos: 0,
        contents: Vec::new(),
        start_lineage: 0,
        end_lineage: 0,
        spans: Vec::new(),
        children: Vec::new(),
        path: Ghost(Seq::empty()),
    }
}

/// Chains that differ at most in their forks.
pub(crate) open spec fn same_but_forks(a: Chain, b: Chain) -> bool {
    &&& a.parent == b.parent
    &&& a.base_pos == b.base_pos
    &&& a.contents == b.contents
    &&& a.start_lineage == b.start_lineage
    &&& a.end_lineage == b.end_lineage
    &&& a.spans == b.spans
    &&& a.path == b.path
    &&& a.children@.len() <= b.children@.len()
}

/// Chains that differ at most in their spans.
pub(crate) open spec fn same_but_spans(a: Chain, b: Chain) -> bool {
    &&& a.parent == b.parent
    &&& a.base_pos == b.base_pos
    &&& a.contents == b.contents
    &&& a.start_lineage == b.start_lineage
    &&& a.end_lineage == b.end_lineage
    &&& a.children == b.children
    &&& a.path == b.path
}

} // verus!
