//! The audit of a chain core: every promise of its layout, held against the
//! layout itself.

use crate::core3::RadixTree3;
use crate::fx::fx_map;
use crate::fx::hashes_consistently;
use crate::fx::name_index;
use crate::fx::names_get;
use crate::fx::names_len;
use crate::lineage::lineage_step;
use crate::lineage::step_of;
use crate::model;
use crate::spans;
use crate::spans::Span;
use crate::text::decimal;
use crate::text::numbered;
use crate::text::push_decimal;
use crate::text::push_short_hexadecimal;
use crate::text::push_wide_decimal;
use crate::text::short_hexadecimal;
use crate::trie::tip;
use crate::trie::Chain;
use crate::trie::Spot;
use rustc_hash::FxHashMap;
use vstd::prelude::*;
use vstd::std_specs::iter::IteratorSpec;

verus! {

/// The first broken promise that an audit found.
#[derive(Debug, Clone, PartialEq, Eq)]
pub enum AuditFault {
    /// The name of a holder leads elsewhere.
    Name { name: String },
    /// There are more or fewer names than holders.
    NameCount,
    /// An entry of the free list is no vacant slot, or stands there twice.
    FreeList { entry: u32 },
    /// A freed chain still has contents.
    FreedChain { chain: usize },
    /// A chain in use has no contents.
    EmptyChain { chain: usize },
    /// A run has no positions, or no holders.
    EmptySpan { chain: usize },
    /// A run starts before the one before it ends.
    OverlappingSpans { chain: usize },
    /// A run leaves its chain.
    SpanBounds { chain: usize },
    /// A run goes on with the same holders where another ends.
    AdjacentSpans { chain: usize },
    /// The holders of a run are out of order.
    UnsortedHolders { chain: usize },
    /// A run names a holder that does not live.
    RetiredHolder { chain: usize, holder: u32 },
    /// Forks are out of order.
    UnsortedChildren { chain: usize },
    /// A fork leaves its chain.
    ForkBounds { chain: usize },
    /// A fork leads to a chain that does not hang there.
    BrokenChild { chain: usize, child: usize },
    /// A root chain is not in the root index.
    Unindexed { chain: usize },
    /// A chain is not among its parent's forks.
    NotAChild { chain: usize },
    /// The cached fingerprint of a chain's tip is stale.
    StaleLineage { chain: usize },
    /// An entry of the root index leads to no root chain.
    Root { lineage: u64 },
    /// A key leads to a chain that is not in use.
    DeadChain { slot: usize, key: u64, chain: usize },
    /// A key leads past its chain.
    KeyBounds { slot: usize, key: u64 },
    /// A key leads to a position that its holder does not cover.
    Uncovered { slot: usize, key: u64 },
    /// The count of all blocks is off.
    BlockCount { total: u128, recount: u128 },
    /// A holder covers a position without a key for it.
    NoKey { chain: usize, pos: u32, holder: u32 },
    /// The count of covered positions is off.
    DistinctCount { total: u128, recount: u128 },
}

/// Fingerprint rolled from `start` over the contents behind the first.
pub(crate) open spec fn rolled(start: u64, contents: Seq<u64>, n: int) -> u64
    decreases n,
{
    if n <= 1 {
        start
    } else {
        step_of(rolled(start, contents, n - 1), contents[n - 1])
    }
}

/// Number of positions in the first `n` runs.
pub(crate) open spec fn run_total(s: Seq<Span>, n: int) -> nat
    decreases n,
{
    if n <= 0 {
        0
    } else {
        run_total(s, n - 1) + s[n - 1].len as nat
    }
}

impl RadixTree3 {
    /// Every holder's name leads to its slot, and there are no other names.
    pub closed spec fn names_coherent(&self) -> bool {
        &&& forall|i: int| #[trigger]
            self.holders@.occupied(i) ==> name_index(self.holders.by_name).contains_key(
                self.holders@.name(i),
            ) && name_index(self.holders.by_name)[self.holders@.name(i)] == i
        &&& name_index(self.holders.by_name).len() == self.holders@.residents().len()
    }

    /// The free list names vacant slots, each once.
    pub closed spec fn free_coherent(&self) -> bool {
        &&& forall|i: int|
            0 <= i < self.holders.free@.len() ==> (#[trigger] self.holders.free@[i])
                < self.holders.slots@.len() && !self.holders@.occupied(self.holders.free@[i] as int)
        &&& self.holders.free@.no_duplicates()
    }

    /// A chain that was given back.
    closed spec fn given_back(&self, c: int) -> bool {
        self.trie.free_chains@.contains(c as usize)
    }

    /// The runs of a chain are canonical, inside it, and of live holders.
    closed spec fn runs_coherent(&self, c: int) -> bool {
        let ch = self.trie.chains@[c];
        &&& spans::canonical(ch.spans@)
        &&& spans::inside(ch.spans@, ch.base_pos as int, tip(ch))
    }

    /// Runs name live holders only.
    closed spec fn runs_live(&self, c: int) -> bool {
        forall|i: int, j: int|
            #![trigger self.trie.chains@[c].spans@[i].holders@[j]]
            0 <= i < self.trie.chains@[c].spans@.len() && 0 <= j
                < self.trie.chains@[c].spans@[i].holders@.len() ==> self.holders@.occupied(
                self.trie.chains@[c].spans@[i].holders@[j] as int,
            )
    }

    /// A fork leads to a chain that hangs there.
    closed spec fn fork_coherent(&self, c: int, f: (u32, u64, usize)) -> bool {
        let ch = self.trie.chains@[c];
        &&& ch.base_pos <= f.0 < tip(ch)
        &&& f.2 < self.trie.chains@.len()
        &&& self.trie.chains@[f.2 as int].parent == Some((c as usize, f.0))
        &&& self.trie.chains@[f.2 as int].base_pos == f.0 + 1
    }

    closed spec fn forks_coherent(&self, c: int) -> bool {
        let f = self.trie.chains@[c].children@;
        &&& crate::trie::forks_sorted(f)
        &&& forall|i: int| 0 <= i < f.len() ==> self.fork_coherent(c, #[trigger] f[i])
    }

    /// A chain hangs on its parent, or is an indexed root.
    closed spec fn link_coherent(&self, c: int) -> bool {
        let ch = self.trie.chains@[c];
        match ch.parent {
            None => ch.base_pos == 0 && self.trie.roots@.contains_key(ch.start_lineage)
                && self.trie.roots@[ch.start_lineage] == c,
            Some((p, fp)) => p < self.trie.chains@.len() && self.trie.chains@[p as int].children@.contains(
                (fp, ch.contents@[0], c as usize),
            ),
        }
    }

    /// A chain keeps all that chains promise.
    pub closed spec fn chain_coherent(&self, c: int) -> bool {
        let ch = self.trie.chains@[c];
        if self.given_back(c) {
            ch.contents@.len() == 0
        } else {
            &&& ch.contents@.len() > 0
            &&& self.runs_coherent(c)
            &&& self.runs_live(c)
            &&& self.forks_coherent(c)
            &&& self.link_coherent(c)
            &&& rolled(ch.start_lineage, ch.contents@, ch.contents@.len() as int) == ch.end_lineage
        }
    }

    pub closed spec fn chains_coherent(&self) -> bool {
        forall|c: int| 0 <= c < self.trie.chains@.len() ==> #[trigger] self.chain_coherent(c)
    }

    /// The root index leads to root chains in use.
    pub closed spec fn roots_coherent(&self) -> bool {
        forall|l: u64| #[trigger]
            self.trie.roots@.contains_key(l) ==> {
                let c = self.trie.roots@[l];
                &&& c < self.trie.chains@.len()
                &&& self.trie.chains@[c as int].parent is None
                &&& self.trie.chains@[c as int].start_lineage == l
                &&& !self.given_back(c as int)
            }
    }

    /// A spot of a chain in use that `h` covers.
    closed spec fn spot_coherent(&self, h: int, s: Spot) -> bool {
        &&& s.chain < self.trie.chains@.len()
        &&& !self.given_back(s.chain as int)
        &&& self.trie.chains@[s.chain as int].base_pos <= s.pos < tip(
            self.trie.chains@[s.chain as int],
        )
        &&& h <= u32::MAX
        &&& spans::covers(self.trie.chains@[s.chain as int].spans@, s.pos as int, h as u32)
    }

    /// Every key leads to a covered spot.
    pub closed spec fn keys_coherent(&self) -> bool {
        forall|i: int, k: u64|
            self.holders@.occupied(i) && #[trigger] self.holders@.blocks(i).contains_key(k)
                ==> self.spot_coherent(i, self.holders@.blocks(i)[k])
    }

    /// Every covered spot has a key.
    pub closed spec fn coverage_coherent(&self) -> bool {
        forall|i: int, c: int, p: u32|
            #![trigger self.holders@.occupied(i), spans::covers(self.trie.chains@[c].spans@, p as int, i as u32)]
            self.holders@.occupied(i) && i <= u32::MAX && 0 <= c < self.trie.chains@.len()
                && !self.given_back(c) && spans::covers(
                self.trie.chains@[c].spans@,
                p as int,
                i as u32,
            ) ==> model::holds(self.holders@.blocks(i), Spot { chain: c as usize, pos: p })
    }

    /// Number of covered positions in the first `n` chains.
    closed spec fn cover_total(&self, n: int) -> nat
        decreases n,
    {
        if n <= 0 {
            0
        } else if self.given_back(n - 1) {
            self.cover_total(n - 1)
        } else {
            let s = self.trie.chains@[n - 1].spans@;
            self.cover_total(n - 1) + run_total(s, s.len() as int)
        }
    }

    /// All promises of the layout.
    pub closed spec fn coherent(&self) -> bool {
        &&& self.names_coherent()
        &&& self.free_coherent()
        &&& self.chains_coherent()
        &&& self.roots_coherent()
        &&& self.keys_coherent()
        &&& self.holders@.pairs().finite() && self.holders@.pairs().len()
            == self.holder_blocks_total
        &&& self.coverage_coherent()
        &&& self.cover_total(self.trie.chains@.len() as int) == self.distinct_entries
    }
}

impl RadixTree3 {
    /// The name of the holder in slot `i` leads to it.
    closed spec fn name_leads_home(&self, i: int) -> bool {
        name_index(self.holders.by_name).contains_key(self.holders@.name(i)) && name_index(
            self.holders.by_name,
        )[self.holders@.name(i)] == i
    }

    /// Entry `i` of the free list is a vacant slot, and stands there the first
    /// time.
    closed spec fn entry_is_good(&self, i: int) -> bool {
        let f = self.holders.free@[i];
        &&& f < self.holders.slots@.len()
        &&& !self.holders@.occupied(f as int)
        &&& !self.holders.free@.take(i).contains(f)
    }

    /// The first `i` runs of a chain are as they should be.
    closed spec fn runs_fine(&self, c: int, i: int) -> bool {
        let ch = self.trie.chains@[c];
        &&& spans::canonical(ch.spans@.take(i))
        &&& spans::inside(ch.spans@.take(i), ch.base_pos as int, tip(ch))
        &&& forall|a: int, b: int|
            #![trigger ch.spans@[a].holders@[b]]
            0 <= a < i && 0 <= b < ch.spans@[a].holders@.len() ==> self.holders@.occupied(
                ch.spans@[a].holders@[b] as int,
            )
    }

    /// The first `j` holders of run `i` are as they should be.
    closed spec fn crew_fine(&self, c: int, i: int, j: int) -> bool {
        let v = self.trie.chains@[c].spans@[i].holders@;
        &&& forall|a: int, b: int| 0 <= a < b < j ==> v[a] < v[b]
        &&& forall|a: int| 0 <= a < j ==> self.holders@.occupied(#[trigger] v[a] as int)
    }

    /// The fault is the first of the runs of chain `c`, and it is in run `i`.
    closed spec fn run_fault(&self, c: int, i: int, e: AuditFault) -> bool {
        let ch = self.trie.chains@[c];
        let s = ch.spans@[i];
        let vain = s.len == 0 || s.holders@.len() == 0;
        let early = i > 0 && s.start < spans::stop(ch.spans@[i - 1]);
        let astray = s.start < ch.base_pos || spans::stop(s) > tip(ch) || spans::stop(s) > u32::MAX;
        let goes_on = i > 0 && s.start == spans::stop(ch.spans@[i - 1]) && s.holders@
            == ch.spans@[i - 1].holders@;
        &&& 0 <= i < ch.spans@.len()
        &&& self.runs_fine(c, i)
        &&& match e {
            AuditFault::EmptySpan { chain } => chain == c && vain,
            AuditFault::OverlappingSpans { chain } => chain == c && !vain && early,
            AuditFault::SpanBounds { chain } => chain == c && !vain && !early && astray,
            AuditFault::AdjacentSpans { chain } => chain == c && !vain && !early && !astray
                && goes_on,
            AuditFault::UnsortedHolders { chain } => chain == c && !vain && !early && !astray
                && !goes_on && exists|j: int|
                0 < j < s.holders@.len() && #[trigger] self.crew_fine(c, i, j) && s.holders@[j - 1]
                    >= s.holders@[j],
            AuditFault::RetiredHolder { chain, holder } => chain == c && !vain && !early && !astray
                && !goes_on && exists|j: int|
                0 <= j < s.holders@.len() && #[trigger] self.crew_fine(c, i, j) && (j > 0
                    ==> s.holders@[j - 1] < s.holders@[j]) && s.holders@[j] == holder
                    && !self.holders@.occupied(holder as int),
            _ => false,
        }
    }

    /// The first `i` forks of a chain are as they should be.
    closed spec fn forks_fine(&self, c: int, i: int) -> bool {
        let f = self.trie.chains@[c].children@;
        &&& forall|a: int, b: int|
            0 <= a < b < i ==> crate::trie::fork_before(#[trigger] f[a], #[trigger] f[b])
        &&& forall|a: int| 0 <= a < i ==> self.fork_coherent(c, #[trigger] f[a])
    }

    /// The fault is the first of the forks of chain `c`, and it is fork `i`.
    closed spec fn fork_fault(&self, c: int, i: int, e: AuditFault) -> bool {
        let ch = self.trie.chains@[c];
        let f = ch.children@[i];
        let late = i > 0 && !crate::trie::fork_before(ch.children@[i - 1], f);
        let astray = !(ch.base_pos <= f.0 < tip(ch));
        &&& 0 <= i < ch.children@.len()
        &&& self.forks_fine(c, i)
        &&& match e {
            AuditFault::UnsortedChildren { chain } => chain == c && late,
            AuditFault::ForkBounds { chain } => chain == c && !late && astray,
            AuditFault::BrokenChild { chain, child } => chain == c && child == f.2 && !late
                && !astray && !self.fork_coherent(c, f),
            _ => false,
        }
    }

    /// The fault is the first of chain `c`.
    closed spec fn chain_fault(&self, c: int, e: AuditFault) -> bool {
        let ch = self.trie.chains@[c];
        let runs = self.runs_coherent(c) && self.runs_live(c);
        match e {
            AuditFault::FreedChain { chain } => chain == c && self.given_back(c)
                && ch.contents@.len() > 0,
            AuditFault::EmptyChain { chain } => chain == c && !self.given_back(c)
                && ch.contents@.len() == 0,
            AuditFault::Unindexed { chain } => chain == c && !self.given_back(c)
                && ch.contents@.len() > 0 && runs && self.forks_coherent(c) && ch.parent is None
                && !self.link_coherent(c),
            AuditFault::NotAChild { chain } => chain == c && !self.given_back(c)
                && ch.contents@.len() > 0 && runs && self.forks_coherent(c) && ch.parent is Some
                && !self.link_coherent(c),
            AuditFault::StaleLineage { chain } => chain == c && !self.given_back(c)
                && ch.contents@.len() > 0 && runs && self.forks_coherent(c) && self.link_coherent(c)
                && rolled(ch.start_lineage, ch.contents@, ch.contents@.len() as int)
                != ch.end_lineage,
            _ => !self.given_back(c) && ch.contents@.len() > 0 && ((exists|i: int| #[trigger]
                self.run_fault(c, i, e)) || (runs && exists|i: int| #[trigger]
                self.fork_fault(c, i, e))),
        }
    }

    /// The fault is there, and it is the first: all that is looked at before it is
    /// as it should be. (Among the roots, among the keys of a holder and among what
    /// is covered, no order is kept.)
    pub closed spec fn is_fault(&self, e: AuditFault) -> bool {
        let layout = self.names_coherent() && self.free_coherent() && self.chains_coherent();
        match e {
            AuditFault::Name { name } => exists|i: int| #[trigger]
                self.holders@.occupied(i) && self.holders@.name(i) == name@
                    && !self.name_leads_home(i) && forall|j: int|
                    j < i && #[trigger] self.holders@.occupied(j) ==> self.name_leads_home(j),
            AuditFault::NameCount => {
                &&& forall|i: int| #[trigger]
                    self.holders@.occupied(i) ==> self.name_leads_home(i)
                &&& name_index(self.holders.by_name).len() != self.holders@.residents().len()
            },
            AuditFault::FreeList { entry } => {
                &&& self.names_coherent()
                &&& exists|i: int|
                    0 <= i < self.holders.free@.len() && self.holders.free@[i] == entry
                        && !#[trigger] self.entry_is_good(i) && forall|j: int|
                        0 <= j < i ==> #[trigger] self.entry_is_good(j)
            },
            AuditFault::Root { lineage } => {
                &&& layout
                &&& self.trie.roots@.contains_key(lineage)
                &&& !self.root_is_good(lineage)
            },
            AuditFault::DeadChain { slot, key, chain } => {
                &&& layout && self.roots_coherent()
                &&& self.key_is_there(slot as int, key)
                &&& self.holders@.blocks(slot as int)[key].chain == chain
                &&& chain >= self.trie.chains@.len() || self.given_back(chain as int)
            },
            AuditFault::KeyBounds { slot, key } => {
                &&& layout && self.roots_coherent()
                &&& self.key_is_there(slot as int, key)
                &&& self.leads_to_life(slot as int, key)
                &&& !self.leads_inside(slot as int, key)
            },
            AuditFault::Uncovered { slot, key } => {
                &&& layout && self.roots_coherent()
                &&& self.key_is_there(slot as int, key)
                &&& self.leads_to_life(slot as int, key)
                &&& self.leads_inside(slot as int, key)
                &&& !self.spot_coherent(slot as int, self.holders@.blocks(slot as int)[key])
            },
            AuditFault::BlockCount { total, recount } => {
                &&& layout && self.roots_coherent() && self.keys_coherent()
                &&& total == self.holder_blocks_total
                &&& self.holders@.pairs().finite() && recount == self.holders@.pairs().len()
                &&& total != recount
            },
            AuditFault::NoKey { chain, pos, holder } => {
                &&& layout && self.roots_coherent() && self.keys_coherent()
                &&& self.holders@.pairs().finite() && self.holders@.pairs().len()
                    == self.holder_blocks_total
                &&& chain < self.trie.chains@.len() && !self.given_back(chain as int)
                &&& spans::covers(self.trie.chains@[chain as int].spans@, pos as int, holder)
                &&& !model::holds(self.holders@.blocks(holder as int), Spot { chain, pos })
            },
            AuditFault::DistinctCount { total, recount } => {
                &&& layout && self.roots_coherent() && self.keys_coherent()
                    && self.coverage_coherent()
                &&& self.holders@.pairs().finite() && self.holders@.pairs().len()
                    == self.holder_blocks_total
                &&& total == self.distinct_entries
                &&& recount == self.cover_total(self.trie.chains@.len() as int)
                &&& total != recount
            },
            _ => {
                &&& self.names_coherent() && self.free_coherent()
                &&& exists|c: int|
                    0 <= c < self.trie.chains@.len() && #[trigger] self.chain_fault(c, e)
                        && forall|d: int| 0 <= d < c ==> #[trigger] self.chain_coherent(d)
            },
        }
    }

    /// An entry of the root index leads to a root chain in use.
    closed spec fn root_is_good(&self, l: u64) -> bool {
        let c = self.trie.roots@[l];
        &&& c < self.trie.chains@.len()
        &&& self.trie.chains@[c as int].parent is None
        &&& self.trie.chains@[c as int].start_lineage == l
        &&& !self.given_back(c as int)
    }

    /// The holder in a slot has the key, and those in earlier slots have theirs in
    /// order.
    closed spec fn key_is_there(&self, slot: int, key: u64) -> bool {
        &&& self.holders@.occupied(slot)
        &&& self.holders@.blocks(slot).contains_key(key)
        &&& forall|j: int, k: u64|
            j < slot && self.holders@.occupied(j) && #[trigger] self.holders@.blocks(
                j,
            ).contains_key(k) ==> self.spot_coherent(j, self.holders@.blocks(j)[k])
    }

    closed spec fn leads_to_life(&self, slot: int, key: u64) -> bool {
        let s = self.holders@.blocks(slot)[key];
        s.chain < self.trie.chains@.len() && !self.given_back(s.chain as int)
    }

    closed spec fn leads_inside(&self, slot: int, key: u64) -> bool {
        let s = self.holders@.blocks(slot)[key];
        let ch = self.trie.chains@[s.chain as int];
        ch.base_pos <= s.pos < tip(ch)
    }

    /// The text tells the first fault.
    pub open spec fn tells_fault(&self, text: Seq<char>) -> bool {
        exists|e: AuditFault| #[trigger] self.is_fault(e) && text == e.text()
    }
}

/// Canonical runs hold no more positions than end below their last one's end.
proof fn runs_fit(s: Seq<Span>, n: int)
    requires
        spans::canonical(s),
        0 <= n <= s.len(),
    ensures
        run_total(s, n) <= if n == 0 {
            0
        } else {
            spans::stop(s[n - 1])
        },
        run_total(s, n) <= u32::MAX,
    decreases n,
{
    if n > 0 {
        runs_fit(s, n - 1);
        assert(spans::sound_span(s[n - 1]));
        if n > 1 {
            assert(spans::stop(s[n - 2]) <= s[n - 1].start);
        }
    }
}

/// The list has the entries of the map.
spec fn lists_entries(list: Seq<(u64, Spot)>, m: Map<u64, Spot>) -> bool {
    &&& forall|i: int|
        0 <= i < list.len() ==> m.contains_key((#[trigger] list[i]).0) && m[list[i].0] == list[i].1
    &&& forall|k: u64| #[trigger] m.contains_key(k) ==> list.contains((k, m[k]))
}

fn entries(m: &FxHashMap<u64, Spot>) -> (r: Vec<(u64, Spot)>)
    requires
        hashes_consistently(*m),
    ensures
        lists_entries(r@, m@),
{
    let mut out: Vec<(u64, Spot)> = Vec::new();
    let pairs = m.iter();
    let ghost all = pairs.remaining();
    for x in it: pairs
        invariant
            all == it.seq(),
            out@.len() == it.index(),
            forall|i: int| 0 <= i < out@.len() ==> #[trigger] out@[i] == (*all[i].0, *all[i].1),
    {
        out.push((*x.0, *x.1));
    }
    proof {
        assert forall|k: u64| #[trigger] m@.contains_key(k) implies out@.contains((k, m@[k])) by {
            assert(all.contains((&k, &m@[k])));
            let i = all.index_of((&k, &m@[k]));
            assert(out@[i] == (k, m@[k]));
        }
        assert forall|i: int| 0 <= i < out@.len() implies m@.contains_key((#[trigger] out@[i]).0)
            && m@[out@[i].0] == out@[i].1 by {
            assert(m@.contains_key(*all[i].0));
        }
    }
    out
}

impl RadixTree3 {
    /// Whether a slot is occupied.
    fn lives(&self, h: u32) -> (r: bool)
        ensures
            r == self.holders@.occupied(h as int),
    {
        proof {
            self.holders.laid_out();
        }
        (h as usize) < self.holders.slots.len() && self.holders.slots[h as usize].state.is_some()
    }

    fn check_names(&self) -> (r: Result<(), AuditFault>)
        ensures
            r is Ok <==> self.names_coherent(),
            r matches Err(e) ==> self.is_fault(e),
    {
        let mut i: usize = 0;
        proof {
            self.holders.laid_out();
        }
        while i < self.holders.slots.len()
            invariant
                i <= self.holders.slots@.len(),
                forall|j: int|
                    j < i && #[trigger] self.holders@.occupied(j) ==> self.name_leads_home(j),
            decreases self.holders.slots@.len() - i,
        {
            proof {
                self.holders.laid_out();
            }
            match &self.holders.slots[i].state {
                None => {
                    assert(!self.holders@.occupied(i as int));
                },
                Some(h) => {
                    assert(self.holders@.occupied(i as int));
                    assert(self.holders@.name(i as int) == h.name@);
                    match names_get(&self.holders.by_name, h.name.as_str()) {
                        Some(x) => {
                            if x as usize != i {
                                assert(!self.name_leads_home(i as int));
                                return Err(AuditFault::Name { name: h.name.clone() });
                            }
                        },
                        None => {
                            assert(!self.name_leads_home(i as int));
                            return Err(AuditFault::Name { name: h.name.clone() });
                        },
                    }
                },
            }
            i = i + 1;
        }
        proof {
            assert forall|j: int| #[trigger] self.holders@.occupied(
                j,
            ) implies self.name_leads_home(j) by {
                self.holders.laid_out();
            }
        }
        if names_len(&self.holders.by_name) as u64 == self.holders.live_count() {
            Ok(())
        } else {
            Err(AuditFault::NameCount)
        }
    }

    fn check_free(&self) -> (r: Result<(), AuditFault>)
        requires
            self.names_coherent(),
        ensures
            r is Ok <==> self.free_coherent(),
            r matches Err(e) ==> self.is_fault(e),
    {
        let mut seen: FxHashMap<u32, bool> = fx_map();
        let mut i: usize = 0;
        while i < self.holders.free.len()
            invariant
                self.names_coherent(),
                hashes_consistently(seen),
                i <= self.holders.free@.len(),
                forall|x: u32| #[trigger]
                    seen@.contains_key(x) <==> self.holders.free@.take(i as int).contains(x),
                forall|j: int| 0 <= j < i ==> #[trigger] self.entry_is_good(j),
                forall|j: int|
                    0 <= j < i ==> (#[trigger] self.holders.free@[j]) < self.holders.slots@.len()
                        && !self.holders@.occupied(self.holders.free@[j] as int),
                self.holders.free@.take(i as int).no_duplicates(),
            decreases self.holders.free@.len() - i,
        {
            let f: u32 = self.holders.free[i];
            let ghost all = self.holders.free@;
            if f as usize >= self.holders.slots.len() || self.lives(f) {
                assert(all[i as int] == f);
                assert(!self.entry_is_good(i as int));
                return Err(AuditFault::FreeList { entry: f });
            }
            if seen.contains_key(&f) {
                proof {
                    let j = all.take(i as int).index_of(f);
                    assert(all.take(i as int).contains(f));
                    assert(all[j] == all[i as int] && j != i);
                    assert(!self.entry_is_good(i as int));
                }
                return Err(AuditFault::FreeList { entry: f });
            }
            seen.insert(f, true);
            proof {
                assert(all.take(i + 1) =~= all.take(i as int).push(f));
                assert(!all.take(i as int).contains(f));
                assert(self.entry_is_good(i as int));
                assert forall|x: u32| #[trigger] seen@.contains_key(x) <==> all.take(
                    i + 1,
                ).contains(x) by {
                    if all.take(i as int).contains(x) {
                        let j = all.take(i as int).index_of(x);
                        assert(all.take(i + 1)[j] == x);
                    }
                    assert(all.take(i + 1)[i as int] == f);
                    if all.take(i + 1).contains(x) && x != f {
                        let j = all.take(i + 1).index_of(x);
                        assert(all.take(i as int)[j] == x);
                    }
                }
            }
            i = i + 1;
        }
        assert(self.holders.free@.take(i as int) =~= self.holders.free@);
        Ok(())
    }

    /// The chains that were given back, as a set.
    fn freed_set(&self) -> (r: FxHashMap<usize, bool>)
        ensures
            hashes_consistently(r),
            forall|c: usize| #[trigger] r@.contains_key(c) <==> self.given_back(c as int),
    {
        let mut set: FxHashMap<usize, bool> = fx_map();
        let mut i: usize = 0;
        let ghost all = self.trie.free_chains@;
        while i < self.trie.free_chains.len()
            invariant
                all == self.trie.free_chains@,
                hashes_consistently(set),
                i <= all.len(),
                forall|c: usize| #[trigger]
                    set@.contains_key(c) <==> all.take(i as int).contains(c),
            decreases all.len() - i,
        {
            let f: usize = self.trie.free_chains[i];
            set.insert(f, true);
            proof {
                assert(all.take(i + 1) =~= all.take(i as int).push(f));
                assert forall|x: usize| #[trigger] set@.contains_key(x) <==> all.take(
                    i + 1,
                ).contains(x) by {
                    if all.take(i as int).contains(x) {
                        let j = all.take(i as int).index_of(x);
                        assert(all.take(i + 1)[j] == x);
                    }
                    assert(all.take(i + 1)[i as int] == f);
                    if all.take(i + 1).contains(x) && x != f {
                        let j = all.take(i + 1).index_of(x);
                        assert(all.take(i as int)[j] == x);
                    }
                }
            }
            i = i + 1;
        }
        assert(all.take(i as int) =~= all);
        set
    }

    /// The holders of a run, one after the other.
    fn check_crew(&self, c: usize, i: usize) -> (r: Result<(), AuditFault>)
        requires
            c < self.trie.chains@.len(),
            i < self.trie.chains@[c as int].spans@.len(),
        ensures
            r is Ok ==> self.crew_fine(
                c as int,
                i as int,
                self.trie.chains@[c as int].spans@[i as int].holders@.len() as int,
            ),
            r matches Err(AuditFault::UnsortedHolders { chain }) ==> chain == c && exists|j: int|
                0 < j < self.trie.chains@[c as int].spans@[i as int].holders@.len()
                    && #[trigger] self.crew_fine(c as int, i as int, j)
                    && self.trie.chains@[c as int].spans@[i as int].holders@[j - 1]
                    >= self.trie.chains@[c as int].spans@[i as int].holders@[j],
            r matches Err(AuditFault::RetiredHolder { chain, holder }) ==> chain == c && exists|
                j: int,
            |
                0 <= j < self.trie.chains@[c as int].spans@[i as int].holders@.len()
                    && #[trigger] self.crew_fine(c as int, i as int, j) && (j > 0
                    ==> self.trie.chains@[c as int].spans@[i as int].holders@[j - 1]
                    < self.trie.chains@[c as int].spans@[i as int].holders@[j])
                    && self.trie.chains@[c as int].spans@[i as int].holders@[j] == holder
                    && !self.holders@.occupied(holder as int),
            r matches Err(e) ==> e is UnsortedHolders || e is RetiredHolder,
    {
        let v = &self.trie.chains[c].spans[i].holders;
        let mut j: usize = 0;
        while j < v.len()
            invariant
                c < self.trie.chains@.len(),
                i < self.trie.chains@[c as int].spans@.len(),
                *v == self.trie.chains@[c as int].spans@[i as int].holders,
                j <= v@.len(),
                self.crew_fine(c as int, i as int, j as int),
            decreases v@.len() - j,
        {
            if j > 0 && v[j - 1] >= v[j] {
                return Err(AuditFault::UnsortedHolders { chain: c });
            }
            if !self.lives(v[j]) {
                return Err(AuditFault::RetiredHolder { chain: c, holder: v[j] });
            }
            j = j + 1;
        }
        Ok(())
    }

    /// The runs of a chain, one after the other.
    fn check_runs(&self, c: usize) -> (r: Result<(), AuditFault>)
        requires
            c < self.trie.chains@.len(),
        ensures
            r is Ok <==> self.runs_coherent(c as int) && self.runs_live(c as int),
            r matches Err(e) ==> exists|i: int| #[trigger] self.run_fault(c as int, i, e),
    {
        let ch = &self.trie.chains[c];
        let end: u128 = ch.base_pos as u128 + ch.contents.len() as u128;
        let mut i: usize = 0;
        while i < ch.spans.len()
            invariant
                c < self.trie.chains@.len(),
                *ch == self.trie.chains@[c as int],
                i <= ch.spans@.len(),
                end == tip(*ch),
                self.runs_fine(c as int, i as int),
            decreases ch.spans@.len() - i,
        {
            let s = &ch.spans[i];
            let ghost all = ch.spans@;
            let ghost so_far = all.take(i as int);
            let ghost more = all.take(i + 1);
            let stop: u64 = s.start as u64 + s.len as u64;
            if s.len == 0 || s.holders.len() == 0 {
                let e = AuditFault::EmptySpan { chain: c };
                proof {
                    assert(!spans::sound_span(all[i as int]));
                    assert(self.run_fault(c as int, i as int, e));
                }
                return Err(e);
            }
            if i > 0 {
                let before = &ch.spans[i - 1];
                proof {
                    assert(so_far[i - 1] == all[i - 1]);
                    assert(spans::sound_span(so_far[i - 1]));
                }
                let touch: u32 = before.start + before.len;
                if s.start < touch {
                    let e = AuditFault::OverlappingSpans { chain: c };
                    proof {
                        assert(!(spans::stop(all[i - 1]) <= all[i as int].start));
                        assert(self.run_fault(c as int, i as int, e));
                    }
                    return Err(e);
                }
            }
            if s.start < ch.base_pos || stop as u128 > end || stop > u32::MAX as u64 {
                let e = AuditFault::SpanBounds { chain: c };
                proof {
                    assert(self.run_fault(c as int, i as int, e));
                    if stop > u32::MAX as u64 {
                        assert(!spans::sound_span(all[i as int]));
                    } else {
                        assert(!(ch.base_pos <= all[i as int].start && spans::stop(all[i as int])
                            <= tip(*ch)));
                    }
                }
                return Err(e);
            }
            if i > 0 {
                let before = &ch.spans[i - 1];
                proof {
                    assert(so_far[i - 1] == all[i - 1]);
                    assert(spans::sound_span(so_far[i - 1]));
                }
                let touch: u32 = before.start + before.len;
                if s.start == touch && spans::same(&before.holders, &s.holders) {
                    let e = AuditFault::AdjacentSpans { chain: c };
                    proof {
                        assert(!spans::apart(all[i - 1], all[(i - 1) + 1]));
                        assert(self.run_fault(c as int, i as int, e));
                    }
                    return Err(e);
                }
            }
            match self.check_crew(c, i) {
                Ok(()) => {},
                Err(e) => {
                    proof {
                        assert(self.run_fault(c as int, i as int, e));
                        self.crew_faults_show(c as int, i as int, e);
                    }
                    return Err(e);
                },
            }
            proof {
                assert forall|a: int| 0 <= a < more.len() implies #[trigger] more[a] == all[a] by {}
                assert forall|a: int| 0 <= a < i implies so_far[a] == #[trigger] all[a] by {}
                assert(spans::sound_span(all[i as int]));
                assert forall|a: int| 0 <= a < more.len() implies spans::sound_span(
                    #[trigger] more[a],
                ) by {
                    if a < i {
                        assert(spans::sound_span(so_far[a]));
                    }
                }
                assert forall|a: int, b: int| 0 <= a < b < more.len() implies spans::stop(
                    #[trigger] more[a],
                ) <= (#[trigger] more[b]).start by {
                    if b < i {
                        assert(spans::stop(so_far[a]) <= so_far[b].start);
                    } else {
                        assert(so_far[i - 1] == all[i - 1]);
                        if a < i - 1 {
                            assert(spans::stop(so_far[a]) <= so_far[i - 1].start);
                        }
                    }
                }
                assert forall|a: int| #![trigger more[a]] 0 <= a && a + 1
                    < more.len() implies spans::apart(more[a], more[a + 1]) by {
                    if a + 1 < i {
                        assert(spans::apart(so_far[a], so_far[a + 1]));
                    }
                }
                assert forall|a: int| 0 <= a < more.len() implies ch.base_pos <= (
                #[trigger] more[a]).start && spans::stop(more[a]) <= tip(*ch) by {
                    if a < i {
                        assert(ch.base_pos <= so_far[a].start);
                    }
                }
                assert(self.runs_fine(c as int, i + 1));
            }
            i = i + 1;
        }
        assert(ch.spans@.take(i as int) =~= ch.spans@);
        Ok(())
    }

    /// A fault among the holders of a run is one of the chain.
    proof fn crew_faults_show(&self, c: int, i: int, e: AuditFault)
        requires
            0 <= c < self.trie.chains@.len(),
            self.run_fault(c, i, e),
            e is UnsortedHolders || e is RetiredHolder,
        ensures
            !(self.runs_coherent(c) && self.runs_live(c)),
    {
        let all = self.trie.chains@[c].spans@;
        let v = all[i].holders@;
        match e {
            AuditFault::UnsortedHolders { chain } => {
                let j = choose|j: int|
                    0 < j < v.len() && #[trigger] self.crew_fine(c, i, j) && v[j - 1] >= v[j];
                assert(!spans::sound_span(all[i]));
            },
            AuditFault::RetiredHolder { chain, holder } => {
                let j = choose|j: int|
                    0 <= j < v.len() && #[trigger] self.crew_fine(c, i, j) && (j > 0 ==> v[j - 1]
                        < v[j]) && v[j] == holder && !self.holders@.occupied(holder as int);
                assert(!self.holders@.occupied(
                    self.trie.chains@[c].spans@[i].holders@[j] as int,
                ));
            },
            _ => {},
        }
    }

    fn check_forks(&self, c: usize) -> (r: Result<(), AuditFault>)
        requires
            c < self.trie.chains@.len(),
        ensures
            r is Ok <==> self.forks_coherent(c as int),
            r matches Err(e) ==> exists|i: int| #[trigger] self.fork_fault(c as int, i, e),
    {
        let ch = &self.trie.chains[c];
        let f = &ch.children;
        let end: u128 = ch.base_pos as u128 + ch.contents.len() as u128;
        let mut i: usize = 0;
        while i < f.len()
            invariant
                c < self.trie.chains@.len(),
                *ch == self.trie.chains@[c as int],
                *f == ch.children,
                end == tip(*ch),
                i <= f@.len(),
                forall|a: int, b: int|
                    0 <= a < b < i ==> crate::trie::fork_before(#[trigger] f@[a], #[trigger] f@[b]),
                forall|a: int| 0 <= a < i ==> self.fork_coherent(c as int, #[trigger] f@[a]),
            decreases f@.len() - i,
        {
            let (fp, content, child): (u32, u64, usize) = f[i];
            if i > 0 {
                let (q, k, d): (u32, u64, usize) = f[i - 1];
                if !(q < fp || (q == fp && k < content)) {
                    let e = AuditFault::UnsortedChildren { chain: c };
                    proof {
                        assert(!crate::trie::fork_before(f@[i - 1], f@[i as int]));
                        assert(self.fork_fault(c as int, i as int, e));
                    }
                    return Err(e);
                }
            }
            proof {
                assert forall|a: int| 0 <= a < i implies crate::trie::fork_before(
                    #[trigger] f@[a],
                    f@[i as int],
                ) by {
                    if a < i - 1 {
                        assert(crate::trie::fork_before(f@[a], f@[i - 1]));
                    }
                }
            }
            if fp < ch.base_pos || fp as u128 >= end {
                let e = AuditFault::ForkBounds { chain: c };
                assert(!self.fork_coherent(c as int, f@[i as int]));
                assert(self.fork_fault(c as int, i as int, e));
                return Err(e);
            }
            if child >= self.trie.chains.len() {
                let e = AuditFault::BrokenChild { chain: c, child };
                assert(!self.fork_coherent(c as int, f@[i as int]));
                assert(self.fork_fault(c as int, i as int, e));
                return Err(e);
            }
            let kid = &self.trie.chains[child];
            let hangs: bool = match kid.parent {
                Some((p, at)) => p == c && at == fp,
                None => false,
            };
            if !hangs || kid.base_pos as u64 != fp as u64 + 1 {
                let e = AuditFault::BrokenChild { chain: c, child };
                assert(!self.fork_coherent(c as int, f@[i as int]));
                assert(self.fork_fault(c as int, i as int, e));
                return Err(e);
            }
            assert(self.fork_coherent(c as int, f@[i as int]));
            i = i + 1;
        }
        Ok(())
    }

    fn check_link(&self, c: usize) -> (r: bool)
        requires
            c < self.trie.chains@.len(),
            self.trie.chains@[c as int].contents@.len() > 0,
            hashes_consistently(self.trie.roots),
        ensures
            r == self.link_coherent(c as int),
    {
        let ch = &self.trie.chains[c];
        match ch.parent {
            None => ch.base_pos == 0 && match self.trie.roots.get(&ch.start_lineage) {
                Some(d) => *d == c,
                None => false,
            },
            Some((p, fp)) => {
                if p >= self.trie.chains.len() {
                    return false;
                }
                let head: u64 = ch.contents[0];
                let f = &self.trie.chains[p].children;
                let mut i: usize = 0;
                while i < f.len()
                    invariant
                        c < self.trie.chains@.len(),
                        *ch == self.trie.chains@[c as int],
                        ch.contents@.len() > 0,
                        head == ch.contents@[0],
                        p < self.trie.chains@.len(),
                        *f == self.trie.chains@[p as int].children,
                        ch.parent == Some((p, fp)),
                        i <= f@.len(),
                        forall|a: int| 0 <= a < i ==> #[trigger] f@[a] != (fp, head, c),
                    decreases f@.len() - i,
                {
                    let (q, k, d): (u32, u64, usize) = f[i];
                    if q == fp && k == head && d == c {
                        assert(f@[i as int] == (fp, head, c));
                        return true;
                    }
                    i = i + 1;
                }
                false
            },
        }
    }

    fn check_chain(&self, c: usize, freed: &FxHashMap<usize, bool>) -> (r: Result<(), AuditFault>)
        requires
            c < self.trie.chains@.len(),
            hashes_consistently(*freed),
            hashes_consistently(self.trie.roots),
            forall|x: usize| #[trigger] freed@.contains_key(x) <==> self.given_back(x as int),
        ensures
            r is Ok <==> self.chain_coherent(c as int),
            r matches Err(e) ==> self.chain_fault(c as int, e) && of_chain(e),
    {
        let ch = &self.trie.chains[c];
        if freed.contains_key(&c) {
            if ch.contents.len() == 0 {
                return Ok(());
            }
            return Err(AuditFault::FreedChain { chain: c });
        }
        if ch.contents.len() == 0 {
            return Err(AuditFault::EmptyChain { chain: c });
        }
        match self.check_runs(c) {
            Ok(()) => {},
            Err(e) => {
                return Err(e);
            },
        }
        match self.check_forks(c) {
            Ok(()) => {},
            Err(e) => {
                return Err(e);
            },
        }
        if !self.check_link(c) {
            return match ch.parent {
                None => Err(AuditFault::Unindexed { chain: c }),
                Some(_) => Err(AuditFault::NotAChild { chain: c }),
            };
        }
        let mut l: u64 = ch.start_lineage;
        let mut i: usize = 1;
        while i < ch.contents.len()
            invariant
                1 <= i <= ch.contents@.len(),
                l == rolled(ch.start_lineage, ch.contents@, i as int),
            decreases ch.contents@.len() - i,
        {
            l = lineage_step(l, ch.contents[i]);
            i = i + 1;
        }
        if l != ch.end_lineage {
            return Err(AuditFault::StaleLineage { chain: c });
        }
        Ok(())
    }

    fn check_roots(&self, freed: &FxHashMap<usize, bool>) -> (r: Result<(), AuditFault>)
        requires
            hashes_consistently(*freed),
            hashes_consistently(self.trie.roots),
            forall|x: usize| #[trigger] freed@.contains_key(x) <==> self.given_back(x as int),
            self.names_coherent() && self.free_coherent() && self.chains_coherent(),
        ensures
            r is Ok <==> self.roots_coherent(),
            r matches Err(e) ==> self.is_fault(e),
    {
        let keys = crate::holders::map_keys(&self.trie.roots);
        let mut i: usize = 0;
        while i < keys.len()
            invariant
                hashes_consistently(*freed),
                hashes_consistently(self.trie.roots),
                forall|x: usize| #[trigger] freed@.contains_key(x) <==> self.given_back(x as int),
                self.names_coherent() && self.free_coherent() && self.chains_coherent(),
                i <= keys@.len(),
                forall|k: u64| keys@.contains(k) <==> self.trie.roots@.contains_key(k),
                forall|j: int|
                    #![trigger keys@[j]]
                    0 <= j < i ==> {
                        let c = self.trie.roots@[keys@[j]];
                        &&& c < self.trie.chains@.len()
                        &&& self.trie.chains@[c as int].parent is None
                        &&& self.trie.chains@[c as int].start_lineage == keys@[j]
                        &&& !self.given_back(c as int)
                    },
            decreases keys@.len() - i,
        {
            let l: u64 = keys[i];
            assert(keys@.contains(l));
            match self.trie.roots.get(&l) {
                Some(c) => {
                    if *c >= self.trie.chains.len() || freed.contains_key(c)
                        || self.trie.chains[*c].parent.is_some()
                        || self.trie.chains[*c].start_lineage != l {
                        assert(self.trie.roots@.contains_key(l));
                        assert(!self.root_is_good(l));
                        return Err(AuditFault::Root { lineage: l });
                    }
                },
                None => {},
            }
            i = i + 1;
        }
        proof {
            assert forall|l: u64| #[trigger] self.trie.roots@.contains_key(l) implies ({
                let c = self.trie.roots@[l];
                &&& c < self.trie.chains@.len()
                &&& self.trie.chains@[c as int].parent is None
                &&& self.trie.chains@[c as int].start_lineage == l
                &&& !self.given_back(c as int)
            }) by {
                assert(keys@.contains(l));
                let j = keys@.index_of(l);
                assert(keys@[j] == l);
            }
        }
        Ok(())
    }

    /// The rows have a mark for every position.
    closed spec fn fits(&self, rows: Seq<Vec<u64>>) -> bool {
        &&& rows.len() == self.trie.chains@.len()
        &&& forall|c: int|
            0 <= c < rows.len() ==> (#[trigger] rows[c])@.len()
                == self.trie.chains@[c].contents@.len()
    }

    /// The spot is the one at the mark.
    closed spec fn stands_at(&self, s: Spot, c: int, k: int) -> bool {
        s.chain == c && s.pos == self.trie.chains@[c].base_pos + k
    }

    /// A row of marks for every chain.
    fn blank_rows(&self) -> (r: Vec<Vec<u64>>)
        ensures
            self.fits(r@),
            forall|c: int, k: int|
                0 <= c < r@.len() && 0 <= k < r@[c]@.len() ==> #[trigger] r@[c]@[k] == 0,
    {
        let mut rows: Vec<Vec<u64>> = Vec::new();
        let mut c: usize = 0;
        while c < self.trie.chains.len()
            invariant
                c <= self.trie.chains@.len(),
                rows@.len() == c,
                forall|d: int|
                    0 <= d < c ==> (#[trigger] rows@[d])@.len()
                        == self.trie.chains@[d].contents@.len(),
                forall|d: int, k: int|
                    0 <= d < c && 0 <= k < rows@[d]@.len() ==> #[trigger] rows@[d]@[k] == 0,
            decreases self.trie.chains@.len() - c,
        {
            let row: Vec<u64> = vec![0u64; self.trie.chains[c].contents.len()];
            rows.push(row);
            c = c + 1;
        }
        rows
    }

    /// The list has the runs of the holder in slot `i`.
    closed spec fn lists(&self, list: Seq<(usize, usize)>, i: int) -> bool {
        forall|c: usize, a: usize| #[trigger]
            list.contains((c, a)) <==> c < self.trie.chains@.len() && !self.given_back(c as int)
                && a < self.trie.chains@[c as int].spans@.len()
                && self.trie.chains@[c as int].spans@[a as int].holders@.contains(i as u32)
    }

    /// The runs of every holder: of each, its chain and its number.
    fn runs_by_holder(&self, freed: &FxHashMap<usize, bool>) -> (r: Vec<Vec<(usize, usize)>>)
        requires
            hashes_consistently(*freed),
            forall|x: usize| #[trigger] freed@.contains_key(x) <==> self.given_back(x as int),
            self.names_coherent() && self.chains_coherent(),
        ensures
            r@.len() == self.holders.slots@.len(),
            forall|i: int|
                0 <= i < r@.len() && i <= u32::MAX ==> self.lists((#[trigger] r@[i])@, i),
    {
        let mut out: Vec<Vec<(usize, usize)>> = Vec::new();
        let n: usize = self.holders.slots.len();
        let mut i: usize = 0;
        while i < n
            invariant
                i <= n,
                out@.len() == i,
                forall|x: int| 0 <= x < i ==> (#[trigger] out@[x])@.len() == 0,
            decreases n - i,
        {
            out.push(Vec::new());
            i = i + 1;
        }
        let mut c: usize = 0;
        while c < self.trie.chains.len()
            invariant
                hashes_consistently(*freed),
                forall|x: usize| #[trigger] freed@.contains_key(x) <==> self.given_back(x as int),
                self.names_coherent() && self.chains_coherent(),
                n == self.holders.slots@.len(),
                out@.len() == n,
                c <= self.trie.chains@.len(),
                forall|x: int, d: usize, a: usize|
                    0 <= x < n && x <= u32::MAX ==> (#[trigger] out@[x]@.contains((d, a)) <==> d < c
                        && self.runs_there(d as int, a as int, x as u32)),
            decreases self.trie.chains@.len() - c,
        {
            if !freed.contains_key(&c) {
                assert(self.chain_coherent(c as int));
                let s = &self.trie.chains[c].spans;
                let mut a: usize = 0;
                while a < s.len()
                    invariant
                        self.runs_live(c as int),
                        spans::canonical(s@),
                        c < self.trie.chains@.len(),
                        !self.given_back(c as int),
                        *s == self.trie.chains@[c as int].spans,
                        n == self.holders.slots@.len(),
                        out@.len() == n,
                        a <= s@.len(),
                        forall|x: int, d: usize, b: usize|
                            0 <= x < n && x <= u32::MAX ==> (#[trigger] out@[x]@.contains((d, b))
                                <==> (d < c || d == c && b < a) && self.runs_there(
                                d as int,
                                b as int,
                                x as u32,
                            )),
                    decreases s@.len() - a,
                {
                    let v = &s[a].holders;
                    let mut j: usize = 0;
                    assert(spans::sound_span(s@[a as int]));
                    while j < v.len()
                        invariant
                            self.runs_live(c as int),
                            c < self.trie.chains@.len(),
                            !self.given_back(c as int),
                            *s == self.trie.chains@[c as int].spans,
                            a < s@.len(),
                            *v == s@[a as int].holders,
                            n == self.holders.slots@.len(),
                            out@.len() == n,
                            j <= v@.len(),
                            forall|x: int, d: usize, b: usize|
                                0 <= x < n && x <= u32::MAX ==> (#[trigger] out@[x]@.contains(
                                    (d, b),
                                ) <==> (d < c || d == c && b < a) && self.runs_there(
                                    d as int,
                                    b as int,
                                    x as u32,
                                ) || d == c && b == a && v@.take(j as int).contains(x as u32)),
                        decreases v@.len() - j,
                    {
                        let h: usize = v[j] as usize;
                        proof {
                            self.holders.laid_out();
                            assert(self.holders@.occupied(
                                self.trie.chains@[c as int].spans@[a as int].holders@[j as int] as int,
                            ));
                        }
                        let ghost was = out@;
                        out[h].push((c, a));
                        proof {
                            let now = was[h as int]@.push((c, a));
                            assert(out@[h as int]@ == now);
                            assert(v@.take(j + 1) =~= v@.take(j as int).push(v@[j as int]));
                            assert forall|x: int, d: usize, b: usize|
                                0 <= x < n && x <= u32::MAX implies (#[trigger] out@[x]@.contains(
                                (d, b),
                            ) <==> (d < c || d == c && b < a) && self.runs_there(
                                d as int,
                                b as int,
                                x as u32,
                            ) || d == c && b == a && v@.take(j + 1).contains(x as u32)) by {
                                let old_ones = was[x]@;
                                assert(old_ones.contains((d, b)) <==> was[x]@.contains((d, b)));
                                if x == h {
                                    assert(now.last() == (c, a));
                                    if old_ones.contains((d, b)) {
                                        let y = old_ones.index_of((d, b));
                                        assert(now[y] == (d, b));
                                    }
                                    if now.contains((d, b)) && (d, b) != (c, a) {
                                        let y = now.index_of((d, b));
                                        assert(old_ones[y] == (d, b));
                                    }
                                }
                                let t = v@.take(j as int);
                                if t.contains(x as u32) {
                                    let y = t.index_of(x as u32);
                                    assert(v@.take(j + 1)[y] == x as u32);
                                }
                                if v@.take(j + 1).contains(x as u32) && x != h {
                                    let y = v@.take(j + 1).index_of(x as u32);
                                    assert(t[y] == x as u32);
                                }
                                if x == h {
                                    assert(v@.take(j + 1)[j as int] == x as u32);
                                }
                            }
                        }
                        j = j + 1;
                    }
                    assert(v@.take(j as int) =~= v@);
                    a = a + 1;
                }
            }
            c = c + 1;
        }
        proof {
            assert forall|x: int| 0 <= x < out@.len() && x <= u32::MAX implies self.lists(
                (#[trigger] out@[x])@,
                x,
            ) by {
                assert forall|d: usize, a: usize| #[trigger]
                    out@[x]@.contains((d, a)) <==> d < self.trie.chains@.len() && !self.given_back(
                        d as int,
                    ) && a < self.trie.chains@[d as int].spans@.len()
                        && self.trie.chains@[d as int].spans@[a as int].holders@.contains(
                        x as u32,
                    ) by {}
            }
        }
        out
    }

    /// Run `a` of chain `c`, which is in use, is one of `h`.
    closed spec fn runs_there(&self, c: int, a: int, h: u32) -> bool {
        &&& !self.given_back(c)
        &&& a < self.trie.chains@[c].spans@.len()
        &&& self.trie.chains@[c].spans@[a].holders@.contains(h)
    }

    /// What the holder in slot `i` covers, it has keys for.
    closed spec fn backs(&self, i: int) -> bool {
        self.holders@.occupied(i) ==> forall|c: int, p: u32|
            0 <= c < self.trie.chains@.len() && !self.given_back(c) && #[trigger] spans::covers(
                self.trie.chains@[c].spans@,
                p as int,
                i as u32,
            ) ==> model::holds(self.holders@.blocks(i), Spot { chain: c as usize, pos: p })
    }

    /// The holder covers the position, and has no key for it.
    closed spec fn keyless(&self, c: usize, p: u32, h: u32) -> bool {
        &&& c < self.trie.chains@.len() && !self.given_back(c as int)
        &&& self.holders@.occupied(h as int)
        &&& spans::covers(self.trie.chains@[c as int].spans@, p as int, h)
        &&& !model::holds(self.holders@.blocks(h as int), Spot { chain: c, pos: p })
    }

    /// A position that the holder in slot `i` covers without a key, if there is one.
    fn check_cover(&self, i: u32, list: &Vec<(usize, usize)>, rows: &Vec<Vec<u64>>) -> (r: Option<
        (usize, u32),
    >)
        requires
            self.chains_coherent(),
            self.holders@.occupied(i as int),
            self.lists(list@, i as int),
            self.fits(rows@),
            forall|c: int, k: int|
                0 <= c < rows@.len() && 0 <= k < rows@[c]@.len() ==> (#[trigger] rows@[c]@[k] == i
                    + 1 <==> self.held_there(i as int, c, k)),
        ensures
            r is None ==> self.backs(i as int),
            r matches Some(x) ==> self.keyless(x.0, x.1, i),
    {
        let mut y: usize = 0;
        let mark: u64 = i as u64 + 1;
        let ghost m = self.holders@.blocks(i as int);
        while y < list.len()
            invariant
                self.chains_coherent(),
                self.holders@.occupied(i as int),
                self.lists(list@, i as int),
                self.fits(rows@),
                mark == i + 1,
                m == self.holders@.blocks(i as int),
                forall|c: int, k: int|
                    0 <= c < rows@.len() && 0 <= k < rows@[c]@.len() ==> (#[trigger] rows@[c]@[k]
                        == mark <==> self.held_there(i as int, c, k)),
                y <= list@.len(),
                forall|z: int, p: u32|
                    0 <= z < y && self.in_run(#[trigger] list@[z], p) ==> #[trigger] model::holds(
                        m,
                        Spot { chain: list@[z].0, pos: p },
                    ),
            decreases list@.len() - y,
        {
            let (c, a): (usize, usize) = list[y];
            proof {
                assert(list@.contains((c, a)));
                assert(self.chain_coherent(c as int));
                assert(spans::sound_span(self.trie.chains@[c as int].spans@[a as int]));
            }
            let ch = &self.trie.chains[c];
            let s = &ch.spans[a];
            let row = &rows[c];
            let base: u32 = ch.base_pos;
            let stop: u32 = s.start + s.len;
            let mut p: u32 = s.start;
            while p < stop
                invariant
                    self.holders@.occupied(i as int),
                    self.fits(rows@),
                    mark == i + 1,
                    m == self.holders@.blocks(i as int),
                    c < self.trie.chains@.len(),
                    !self.given_back(c as int),
                    *ch == self.trie.chains@[c as int],
                    a < ch.spans@.len(),
                    *s == ch.spans@[a as int],
                    s.holders@.contains(i),
                    *row == rows@[c as int],
                    base == ch.base_pos,
                    base <= s.start <= p <= stop,
                    stop == spans::stop(*s),
                    stop <= tip(*ch),
                    forall|d: int, k: int|
                        0 <= d < rows@.len() && 0 <= k < rows@[d]@.len() ==> (
                        #[trigger] rows@[d]@[k] == mark <==> self.held_there(i as int, d, k)),
                    forall|x: u32|
                        s.start <= x < p ==> #[trigger] model::holds(
                            m,
                            Spot { chain: c, pos: x },
                        ),
                decreases stop - p,
            {
                let k: usize = (p - base) as usize;
                assert(rows@[c as int]@[k as int] == row@[k as int]);
                if row[k] != mark {
                    proof {
                        assert(!self.held_there(i as int, c as int, k as int));
                        assert(spans::covers(ch.spans@, p as int, i));
                    }
                    return Some((c, p));
                }
                assert(self.held_there(i as int, c as int, k as int));
                p = p + 1;
            }
            y = y + 1;
        }
        proof {
            assert forall|c: int, p: u32|
                0 <= c < self.trie.chains@.len() && !self.given_back(c) && #[trigger] spans::covers(
                    self.trie.chains@[c].spans@,
                    p as int,
                    i,
                ) implies model::holds(m, Spot { chain: c as usize, pos: p }) by {
                let s = self.trie.chains@[c].spans@;
                let a = choose|a: int|
                    0 <= a < s.len() && (#[trigger] s[a]).start <= p < spans::stop(s[a])
                        && s[a].holders@.contains(i);
                assert(self.trie.chains.len() == self.trie.chains@.len());
                assert(self.trie.chains[c].spans.len() == s.len());
                assert(list@.contains((c as usize, a as usize)));
                let z = list@.index_of((c as usize, a as usize));
                assert(self.in_run(list@[z], p));
            }
        }
        None
    }

    /// The position is in the run.
    closed spec fn in_run(&self, x: (usize, usize), p: u32) -> bool {
        let s = self.trie.chains@[x.0 as int].spans@[x.1 as int];
        s.start <= p < spans::stop(s)
    }

    /// The holder in slot `i` has a key for the position of the mark.
    closed spec fn held_there(&self, i: int, c: int, k: int) -> bool {
        exists|key: u64| #[trigger]
            self.holders@.blocks(i).contains_key(key) && self.stands_at(
                self.holders@.blocks(i)[key],
                c,
                k,
            )
    }

    /// Every key leads to what its holder covers, and what a holder covers it has
    /// keys for: a covered position without a key, if there is one.
    fn check_keys(&self, freed: &FxHashMap<usize, bool>) -> (r: Result<
        Option<(usize, u32, u32)>,
        AuditFault,
    >)
        requires
            hashes_consistently(*freed),
            forall|x: usize| #[trigger] freed@.contains_key(x) <==> self.given_back(x as int),
            self.names_coherent() && self.free_coherent() && self.chains_coherent(),
            self.roots_coherent(),
        ensures
            r is Ok <==> self.keys_coherent(),
            r matches Ok(None) ==> self.coverage_coherent(),
            r matches Ok(Some(x)) ==> self.keyless(x.0, x.1, x.2),
            r matches Err(e) ==> self.is_fault(e),
    {
        let lists = self.runs_by_holder(freed);
        let mut rows = self.blank_rows();
        let mut lacking: Option<(usize, u32, u32)> = None;
        let mut i: usize = 0;
        proof {
            self.holders.laid_out();
        }
        while i < self.holders.slots.len()
            invariant
                hashes_consistently(*freed),
                forall|x: usize| #[trigger] freed@.contains_key(x) <==> self.given_back(x as int),
                self.names_coherent() && self.free_coherent() && self.chains_coherent(),
                self.roots_coherent(),
                i <= self.holders.slots@.len(),
                lists@.len() == self.holders.slots@.len(),
                forall|x: int|
                    0 <= x < lists@.len() && x <= u32::MAX ==> self.lists(
                        (#[trigger] lists@[x])@,
                        x,
                    ),
                self.fits(rows@),
                forall|c: int, k: int|
                    0 <= c < rows@.len() && 0 <= k < rows@[c]@.len() ==> #[trigger] rows@[c]@[k]
                        <= i,
                forall|j: int, k: u64|
                    j < i && self.holders@.occupied(j) && #[trigger] self.holders@.blocks(
                        j,
                    ).contains_key(k) ==> self.spot_coherent(j, self.holders@.blocks(j)[k]),
                match lacking {
                    None => forall|j: int| 0 <= j < i ==> #[trigger] self.backs(j),
                    Some(x) => self.keyless(x.0, x.1, x.2),
                },
            decreases self.holders.slots@.len() - i,
        {
            proof {
                self.holders.laid_out();
            }
            match &self.holders.slots[i].state {
                None => {
                    assert(!self.holders@.occupied(i as int));
                    assert(self.backs(i as int));
                },
                Some(h) => {
                    let ghost m = h.registry@;
                    assert(self.holders@.occupied(i as int));
                    assert(self.name_leads_home(i as int));
                    assert(self.holders@.blocks(i as int) == m);
                    let keys = entries(&h.registry);
                    let mark: u64 = i as u64 + 1;
                    let mut j: usize = 0;
                    while j < keys.len()
                        invariant
                            hashes_consistently(*freed),
                            forall|x: usize| #[trigger]
                                freed@.contains_key(x) <==> self.given_back(x as int),
                            self.names_coherent() && self.free_coherent()
                                && self.chains_coherent(),
                            self.roots_coherent(),
                            forall|a: int, k: u64|
                                a < i && self.holders@.occupied(a)
                                    && #[trigger] self.holders@.blocks(a).contains_key(k)
                                    ==> self.spot_coherent(a, self.holders@.blocks(a)[k]),
                            i <= u32::MAX,
                            mark == i + 1,
                            self.holders@.occupied(i as int),
                            self.holders@.blocks(i as int) == m,
                            m == h.registry@,
                            lists_entries(keys@, m),
                            j <= keys@.len(),
                            forall|x: int|
                                0 <= x < j ==> self.spot_coherent(i as int, (#[trigger] keys@[x]).1),
                            self.fits(rows@),
                            forall|c: int, k: int|
                                0 <= c < rows@.len() && 0 <= k < rows@[c]@.len()
                                    ==> #[trigger] rows@[c]@[k] <= mark,
                            forall|c: int, k: int|
                                0 <= c < rows@.len() && 0 <= k < rows@[c]@.len() ==> (
                                #[trigger] rows@[c]@[k] == mark <==> exists|x: int|
                                    0 <= x < j && self.stands_at((#[trigger] keys@[x]).1, c, k)),
                        decreases keys@.len() - j,
                    {
                        let (key, s): (u64, Spot) = keys[j];
                        assert(keys@[j as int] == (key, s));
                        proof {
                            assert(self.holders@.blocks(i as int).contains_key(key));
                            assert(self.key_is_there(i as int, key));
                        }
                        match self.check_spot(i, key, s, freed) {
                            Ok(()) => {},
                            Err(e) => {
                                return Err(e);
                            },
                        }
                        let ghost was = rows@;
                        let k: usize = (s.pos - self.trie.chains[s.chain].base_pos) as usize;
                        rows[s.chain][k] = mark;
                        proof {
                            let c0 = s.chain as int;
                            assert(rows@[c0]@ == was[c0]@.update(k as int, mark));
                            assert forall|c: int, l: int|
                                0 <= c < rows@.len() && 0 <= l < rows@[c]@.len() implies (
                            #[trigger] rows@[c]@[l] == mark <==> exists|x: int|
                                0 <= x < j + 1 && self.stands_at(
                                    (#[trigger] keys@[x]).1,
                                    c,
                                    l,
                                )) by {
                                let before = was[c]@[l];
                                if c == c0 && l == k {
                                    assert(self.stands_at(keys@[j as int].1, c, l));
                                } else {
                                    assert(rows@[c]@[l] == before);
                                    if before == mark {
                                        let x = choose|x: int|
                                            0 <= x < j && self.stands_at(
                                                (#[trigger] keys@[x]).1,
                                                c,
                                                l,
                                            );
                                        assert(self.stands_at(keys@[x].1, c, l));
                                    }
                                    if exists|x: int|
                                        0 <= x < j + 1 && self.stands_at(
                                            (#[trigger] keys@[x]).1,
                                            c,
                                            l,
                                        ) {
                                        let x = choose|x: int|
                                            0 <= x < j + 1 && self.stands_at(
                                                (#[trigger] keys@[x]).1,
                                                c,
                                                l,
                                            );
                                        assert(x != j);
                                        assert(self.stands_at(keys@[x].1, c, l));
                                    }
                                }
                            }
                        }
                        j = j + 1;
                    }
                    proof {
                        assert forall|k: u64| #[trigger] m.contains_key(k) implies self.spot_coherent(
                            i as int,
                            m[k],
                        ) by {
                            let x = keys@.index_of((k, m[k]));
                            assert(keys@[x] == (k, m[k]));
                        }
                        assert forall|c: int, k: int|
                            0 <= c < rows@.len() && 0 <= k < rows@[c]@.len() implies (
                        #[trigger] rows@[c]@[k] == mark <==> self.held_there(i as int, c, k)) by {
                            if rows@[c]@[k] == mark {
                                let x = choose|x: int|
                                    0 <= x < j && self.stands_at((#[trigger] keys@[x]).1, c, k);
                                assert(self.holders@.blocks(i as int).contains_key(keys@[x].0));
                            }
                            if self.held_there(i as int, c, k) {
                                let key = choose|key: u64| #[trigger]
                                    m.contains_key(key) && self.stands_at(m[key], c, k);
                                let x = keys@.index_of((key, m[key]));
                                assert(self.stands_at(keys@[x].1, c, k));
                            }
                        }
                    }
                    if lacking.is_none() {
                        assert(self.lists(lists@[i as int]@, i as int));
                        match self.check_cover(i as u32, &lists[i], &rows) {
                            None => {},
                            Some((c, p)) => {
                                lacking = Some((c, p, i as u32));
                            },
                        }
                    }
                },
            }
            i = i + 1;
        }
        proof {
            self.holders.laid_out();
            if lacking is None {
                assert forall|j: int, c: int, p: u32|
                    #![trigger self.holders@.occupied(j), spans::covers(self.trie.chains@[c].spans@, p as int, j as u32)]
                    self.holders@.occupied(j) && j <= u32::MAX && 0 <= c < self.trie.chains@.len()
                        && !self.given_back(c) && spans::covers(
                        self.trie.chains@[c].spans@,
                        p as int,
                        j as u32,
                    ) implies model::holds(
                    self.holders@.blocks(j),
                    Spot { chain: c as usize, pos: p },
                ) by {
                    assert(self.backs(j));
                }
            }
        }
        Ok(lacking)
    }

    fn check_spot(&self, slot: usize, key: u64, s: Spot, freed: &FxHashMap<usize, bool>) -> (r:
        Result<(), AuditFault>)
        requires
            hashes_consistently(*freed),
            forall|x: usize| #[trigger] freed@.contains_key(x) <==> self.given_back(x as int),
            self.names_coherent() && self.free_coherent() && self.chains_coherent(),
            self.roots_coherent(),
            slot <= u32::MAX,
            self.key_is_there(slot as int, key),
            self.holders@.blocks(slot as int)[key] == s,
        ensures
            r is Ok <==> self.spot_coherent(slot as int, s),
            r matches Err(e) ==> self.is_fault(e),
    {
        if s.chain >= self.trie.chains.len() || freed.contains_key(&s.chain) {
            return Err(AuditFault::DeadChain { slot, key, chain: s.chain });
        }
        let ch = &self.trie.chains[s.chain];
        assert(self.chain_coherent(s.chain as int));
        let end: u128 = ch.base_pos as u128 + ch.contents.len() as u128;
        if s.pos < ch.base_pos || s.pos as u128 >= end {
            return Err(AuditFault::KeyBounds { slot, key });
        }
        if !spans::covered(&ch.spans, s.pos, slot as u32) {
            return Err(AuditFault::Uncovered { slot, key });
        }
        Ok(())
    }

    /// How many blocks the holders have in all.
    fn count_blocks(&self) -> (r: u128)
        requires
            self.names_coherent(),
        ensures
            self.holders@.pairs().finite(),
            r == self.holders@.pairs().len(),
    {
        let mut n: u128 = 0;
        let mut i: usize = 0;
        let ghost t = self.holders@;
        let ghost mut seen: Set<(u32, u64)> = Set::empty();
        proof {
            assert(seen =~= t.pairs().filter(|x: (u32, u64)| x.0 < 0));
        }
        let sane: FxHashMap<u64, u64> = fx_map();
        while i < self.holders.slots.len()
            invariant
                self.names_coherent(),
                hashes_consistently(sane),
                t == self.holders@,
                i <= self.holders.slots@.len(),
                seen.finite(),
                n == seen.len(),
                forall|x: (u32, u64)| #[trigger]
                    seen.contains(x) <==> t.pairs().contains(x) && x.0 < i,
            decreases self.holders.slots@.len() - i,
        {
            proof {
                self.holders.laid_out();
            }
            match &self.holders.slots[i].state {
                None => {
                    assert(!t.occupied(i as int));
                },
                Some(h) => {
                    proof {
                        assert(t.occupied(i as int));
                        assert(i <= u32::MAX);
                        let dom = h.registry@.dom();
                        crate::fx::fx_map_is_finite(h.registry);
                        let f = |k: u64| (i as u32, k);
                        let own = dom.map(f);
                        vstd::set_lib::lemma_map_size(dom, own, f);
                        assert(seen.disjoint(own));
                        vstd::set_lib::lemma_set_disjoint_lens(seen, own);
                        let more = seen.union(own);
                        assert forall|x: (u32, u64)| #[trigger]
                            more.contains(x) <==> t.pairs().contains(x) && x.0 < i + 1 by {
                            if own.contains(x) {
                                let k = choose|k: u64| dom.contains(k) && f(k) == x;
                                assert(t.blocks(i as int).contains_key(k));
                            }
                            if t.pairs().contains(x) && x.0 == i {
                                assert(dom.contains(x.1));
                                assert(f(x.1) == x);
                            }
                        }
                        model::pairs_are_bounded(more);
                        seen = more;
                    }
                    n = n + h.registry.len() as u128;
                },
            }
            i = i + 1;
        }
        proof {
            self.holders.laid_out();
            assert(seen =~= t.pairs());
        }
        n
    }

    /// How many positions are covered.
    fn count_positions(&self, freed: &FxHashMap<usize, bool>) -> (r: u128)
        requires
            hashes_consistently(*freed),
            forall|x: usize| #[trigger] freed@.contains_key(x) <==> self.given_back(x as int),
            self.chains_coherent(),
        ensures
            r == self.cover_total(self.trie.chains@.len() as int),
    {
        let mut n: u128 = 0;
        let mut c: usize = 0;
        while c < self.trie.chains.len()
            invariant
                hashes_consistently(*freed),
                forall|x: usize| #[trigger] freed@.contains_key(x) <==> self.given_back(x as int),
                self.chains_coherent(),
                c <= self.trie.chains@.len(),
                n == self.cover_total(c as int),
                n <= c * 0x1_0000_0000,
            decreases self.trie.chains@.len() - c,
        {
            if !freed.contains_key(&c) {
                assert(self.chain_coherent(c as int));
                let s = &self.trie.chains[c].spans;
                let mut own: u64 = 0;
                let mut i: usize = 0;
                while i < s.len()
                    invariant
                        spans::canonical(s@),
                        i <= s@.len(),
                        own == run_total(s@, i as int),
                        own <= u32::MAX,
                    decreases s@.len() - i,
                {
                    proof {
                        runs_fit(s@, i + 1);
                    }
                    own = own + s[i].len as u64;
                    i = i + 1;
                }
                n = n + own as u128;
            }
            c = c + 1;
        }
        n
    }

    /// Holds the layout against its promises: the first that is broken, if one
    /// is.
    pub fn inspect(&self) -> (r: Result<(), AuditFault>)
        ensures
            r is Ok <==> self.coherent(),
            r matches Err(e) ==> self.is_fault(e),
    {
        match self.check_names() {
            Ok(()) => {},
            Err(e) => return Err(e),
        }
        match self.check_free() {
            Ok(()) => {},
            Err(e) => return Err(e),
        }
        let freed = self.freed_set();
        let mut c: usize = 0;
        while c < self.trie.chains.len()
            invariant
                hashes_consistently(freed),
                forall|x: usize| #[trigger] freed@.contains_key(x) <==> self.given_back(x as int),
                self.names_coherent() && self.free_coherent(),
                c <= self.trie.chains@.len(),
                forall|d: int| 0 <= d < c ==> #[trigger] self.chain_coherent(d),
            decreases self.trie.chains@.len() - c,
        {
            match self.check_chain(c, &freed) {
                Ok(()) => {},
                Err(e) => {
                    assert(!self.chain_coherent(c as int));
                    return Err(e);
                },
            }
            c = c + 1;
        }
        match self.check_roots(&freed) {
            Ok(()) => {},
            Err(e) => return Err(e),
        }
        let lacking = match self.check_keys(&freed) {
            Ok(lacking) => lacking,
            Err(e) => return Err(e),
        };
        let blocks: u128 = self.count_blocks();
        if blocks != self.holder_blocks_total {
            return Err(AuditFault::BlockCount { total: self.holder_blocks_total, recount: blocks });
        }
        match lacking {
            None => {},
            Some((chain, pos, holder)) => {
                assert(self.keyless(chain, pos, holder));
                assert(holder == (holder as int) as u32);
                assert(!self.coverage_coherent());
                return Err(AuditFault::NoKey { chain, pos, holder });
            },
        }
        let distinct: u128 = self.count_positions(&freed);
        if distinct != self.distinct_entries {
            return Err(
                AuditFault::DistinctCount { total: self.distinct_entries, recount: distinct },
            );
        }
        Ok(())
    }

    /// The audit as a report: the text of the first broken promise.
    pub fn audit(&self) -> (r: Result<(), String>)
        ensures
            r is Ok <==> self.coherent(),
            r matches Err(m) ==> self.tells_fault(m@),
    {
        match self.inspect() {
            Ok(()) => Ok(()),
            Err(e) => {
                assert(self.is_fault(e));
                Err(e.message())
            },
        }
    }
}

/// The faults that a look at one chain can find.
spec fn of_chain(e: AuditFault) -> bool {
    match e {
        AuditFault::Name { .. } => false,
        AuditFault::NameCount => false,
        AuditFault::FreeList { .. } => false,
        AuditFault::Root { .. } => false,
        AuditFault::DeadChain { .. } => false,
        AuditFault::KeyBounds { .. } => false,
        AuditFault::Uncovered { .. } => false,
        AuditFault::BlockCount { .. } => false,
        AuditFault::NoKey { .. } => false,
        AuditFault::DistinctCount { .. } => false,
        _ => true,
    }
}

/// A key of the holder in a slot.
pub open spec fn key_text(slot: nat, key: nat) -> Seq<char> {
    "holder "@ + decimal(slot) + " key "@ + short_hexadecimal(key)
}

fn key_message(slot: usize, key: u64) -> (r: String)
    ensures
        r@ == key_text(slot as nat, key as nat),
{
    let mut out = framed("holder ", slot as u64, " key ");
    push_short_hexadecimal(&mut out, key);
    out
}

fn framed(before: &str, n: u64, after: &str) -> (r: String)
    ensures
        r@ == before@ + decimal(n as nat) + after@,
{
    let mut out = numbered(before, n);
    out.append(after);
    out
}

impl AuditFault {
    /// What the fault is, in words.
    pub open spec fn text(self) -> Seq<char> {
        match self {
            AuditFault::Name { name } => "by_name incoherent for "@ + name@,
            AuditFault::NameCount => "by_name size mismatch"@,
            AuditFault::FreeList { entry } => "free-list bad entry "@ + decimal(entry as nat),
            AuditFault::FreedChain { chain } => "freed chain "@ + decimal(chain as nat) + " not empty"@,
            AuditFault::EmptyChain { chain } => "live chain "@ + decimal(chain as nat) + " is empty"@,
            AuditFault::EmptySpan { chain } => "chain "@ + decimal(chain as nat) + " empty span"@,
            AuditFault::OverlappingSpans { chain } => "chain "@ + decimal(chain as nat) + " overlapping spans"@,
            AuditFault::SpanBounds { chain } => "chain "@ + decimal(chain as nat) + " span out of bounds"@,
            AuditFault::AdjacentSpans { chain } => "chain "@ + decimal(chain as nat) + " non-maximal adjacent spans"@,
            AuditFault::UnsortedHolders { chain } => "chain "@ + decimal(chain as nat) + " unsorted span holders"@,
            AuditFault::UnsortedChildren { chain } => "chain "@ + decimal(chain as nat) + " unsorted children"@,
            AuditFault::ForkBounds { chain } => "chain "@ + decimal(chain as nat) + " child fork out of bounds"@,
            AuditFault::Unindexed { chain } => "root chain "@ + decimal(chain as nat) + " unindexed"@,
            AuditFault::NotAChild { chain } => "chain "@ + decimal(chain as nat) + " not in parent's children"@,
            AuditFault::StaleLineage { chain } => "chain "@ + decimal(chain as nat) + " end_lineage stale"@,
            AuditFault::RetiredHolder { chain, holder } => "chain "@ + decimal(chain as nat)
                + " span holds retired holder "@ + decimal(holder as nat),
            AuditFault::BrokenChild { chain, child } => "chain "@ + decimal(chain as nat)
                + " child "@ + decimal(child as nat) + " link broken"@,
            AuditFault::Root { lineage } => "roots entry "@ + short_hexadecimal(lineage as nat)
                + " bad"@,
            AuditFault::DeadChain { slot, key, chain } => key_text(slot as nat, key as nat)
                + " points at dead chain "@ + decimal(chain as nat),
            AuditFault::KeyBounds { slot, key } => key_text(slot as nat, key as nat)
                + " position out of bounds"@,
            AuditFault::Uncovered { slot, key } => key_text(slot as nat, key as nat)
                + " not covered by spans"@,
            AuditFault::BlockCount { total, recount } => "holder_blocks_total "@ + decimal(
                total as nat,
            ) + " != recount "@ + decimal(recount as nat),
            AuditFault::NoKey { chain, pos, holder } => "span coverage (chain "@ + decimal(
                chain as nat,
            ) + ", pos "@ + decimal(pos as nat) + ", holder "@ + decimal(holder as nat)
                + ") has no key map entry"@,
            AuditFault::DistinctCount { total, recount } => "distinct_entries "@ + decimal(
                total as nat,
            ) + " != recount "@ + decimal(recount as nat),
        }
    }

    /// What the fault is, in words.
    pub fn message(&self) -> (r: String)
        ensures
            r@ == self.text(),
    {
        match self {
            AuditFault::Name { name } => {
                let mut out = "by_name incoherent for ".to_owned();
                out.append(name.as_str());
                out
            },
            AuditFault::NameCount => "by_name size mismatch".to_owned(),
            AuditFault::FreeList { entry } => numbered("free-list bad entry ", *entry as u64),
            AuditFault::FreedChain { chain } => framed("freed chain ", *chain as u64, " not empty"),
            AuditFault::EmptyChain { chain } => framed("live chain ", *chain as u64, " is empty"),
            AuditFault::EmptySpan { chain } => framed("chain ", *chain as u64, " empty span"),
            AuditFault::OverlappingSpans { chain } => framed("chain ", *chain as u64, " overlapping spans"),
            AuditFault::SpanBounds { chain } => framed("chain ", *chain as u64, " span out of bounds"),
            AuditFault::AdjacentSpans { chain } => framed("chain ", *chain as u64, " non-maximal adjacent spans"),
            AuditFault::UnsortedHolders { chain } => framed("chain ", *chain as u64, " unsorted span holders"),
            AuditFault::UnsortedChildren { chain } => framed("chain ", *chain as u64, " unsorted children"),
            AuditFault::ForkBounds { chain } => framed("chain ", *chain as u64, " child fork out of bounds"),
            AuditFault::Unindexed { chain } => framed("root chain ", *chain as u64, " unindexed"),
            AuditFault::NotAChild { chain } => framed("chain ", *chain as u64, " not in parent's children"),
            AuditFault::StaleLineage { chain } => framed("chain ", *chain as u64, " end_lineage stale"),
            AuditFault::RetiredHolder { chain, holder } => {
                let mut out = framed("chain ", *chain as u64, " span holds retired holder ");
                push_decimal(&mut out, *holder as u64);
                out
            },
            AuditFault::BrokenChild { chain, child } => {
                let mut out = framed("chain ", *chain as u64, " child ");
                push_decimal(&mut out, *child as u64);
                out.append(" link broken");
                out
            },
            AuditFault::Root { lineage } => {
                let mut out = "roots entry ".to_owned();
                push_short_hexadecimal(&mut out, *lineage);
                out.append(" bad");
                out
            },
            AuditFault::DeadChain { slot, key, chain } => {
                let mut out = key_message(*slot, *key);
                out.append(" points at dead chain ");
                push_decimal(&mut out, *chain as u64);
                out
            },
            AuditFault::KeyBounds { slot, key } => {
                let mut out = key_message(*slot, *key);
                out.append(" position out of bounds");
                out
            },
            AuditFault::Uncovered { slot, key } => {
                let mut out = key_message(*slot, *key);
                out.append(" not covered by spans");
                out
            },
            AuditFault::BlockCount { total, recount } => {
                let mut out = "holder_blocks_total ".to_owned();
                push_wide_decimal(&mut out, *total);
                out.append(" != recount ");
                push_wide_decimal(&mut out, *recount);
                out
            },
            AuditFault::NoKey { chain, pos, holder } => {
                let mut out = framed("span coverage (chain ", *chain as u64, ", pos ");
                push_decimal(&mut out, *pos as u64);
                out.append(", holder ");
                push_decimal(&mut out, *holder as u64);
                out.append(") has no key map entry");
                out
            },
            AuditFault::DistinctCount { total, recount } => {
                let mut out = "distinct_entries ".to_owned();
                push_wide_decimal(&mut out, *total);
                out.append(" != recount ");
                push_wide_decimal(&mut out, *recount);
                out
            },
        }
    }
}

/// Positions in the first `n` runs.
spec fn run_positions(s: Seq<Span>, n: int) -> Set<int> {
    Set::new(
        |p: int| exists|i: int| 0 <= i < n && (#[trigger] s[i]).start <= p < spans::stop(s[i]),
    )
}

/// Canonical runs hold each position once.
proof fn runs_add_up(s: Seq<Span>, n: int)
    requires
        spans::canonical(s),
        0 <= n <= s.len(),
    ensures
        run_positions(s, n).finite(),
        run_positions(s, n).len() == run_total(s, n),
    decreases n,
{
    if n == 0 {
        assert(run_positions(s, 0) =~= Set::empty());
    } else {
        runs_add_up(s, n - 1);
        let old_ones = run_positions(s, n - 1);
        let x = s[n - 1];
        assert(spans::sound_span(x));
        let new_ones = vstd::set_lib::set_int_range(x.start as int, spans::stop(x));
        vstd::set_lib::lemma_int_range(x.start as int, spans::stop(x));
        assert forall|p: int| #[trigger] old_ones.contains(p) implies p < x.start by {
            let i = choose|i: int|
                0 <= i < n - 1 && (#[trigger] s[i]).start <= p < spans::stop(s[i]);
            assert(spans::stop(s[i]) <= s[n - 1].start);
        }
        assert(old_ones.disjoint(new_ones));
        vstd::set_lib::lemma_set_disjoint_lens(old_ones, new_ones);
        assert(run_positions(s, n) =~= old_ones.union(new_ones)) by {
            assert forall|p: int| #[trigger] run_positions(s, n).contains(p) == old_ones.union(
                new_ones,
            ).contains(p) by {
                if run_positions(s, n).contains(p) {
                    let i = choose|i: int|
                        0 <= i < n && (#[trigger] s[i]).start <= p < spans::stop(s[i]);
                    if i < n - 1 {
                        assert(s[i].start <= p < spans::stop(s[i]));
                    }
                }
                if old_ones.contains(p) {
                    let i = choose|i: int|
                        0 <= i < n - 1 && (#[trigger] s[i]).start <= p < spans::stop(s[i]);
                    assert(s[i].start <= p < spans::stop(s[i]));
                }
                if new_ones.contains(p) {
                    assert(s[n - 1].start <= p < spans::stop(s[n - 1]));
                }
            }
        }
    }
}

impl RadixTree3 {
    /// Spots of the first `n` chains that somebody covers.
    closed spec fn covered_spots(&self, n: int) -> Set<Spot> {
        Set::new(
            |s: Spot|
                s.chain < n && exists|h: u32|
                    self.trie.covers(s.chain as int, s.pos as int, h),
        )
    }

    /// Chains that were given back are those that are not in use.
    proof fn idle_chains(&self)
        requires
            self.wf(),
        ensures
            forall|c: int|
                0 <= c < self.trie.chains@.len() ==> #[trigger] self.given_back(c)
                    == !self.trie.alive(c),
    {
        reveal(crate::trie::Trie::freed);
        assert(self.trie.chains.len() == self.trie.chains@.len());
        assert forall|c: int| 0 <= c < self.trie.chains@.len() implies #[trigger] self.given_back(c)
            == !self.trie.alive(c) by {
            if self.given_back(c) {
                let i = self.trie.free_chains@.index_of(c as usize);
                assert(self.trie.free_chains@[i] == c as usize);
            }
        }
    }

    /// Covered spots are counted by the runs.
    proof fn covers_add_up(&self, n: int)
        requires
            self.wf(),
            0 <= n <= self.trie.chains@.len(),
        ensures
            self.covered_spots(n).finite(),
            self.covered_spots(n).len() == self.cover_total(n),
        decreases n,
    {
        if n == 0 {
            assert(self.covered_spots(0) =~= Set::empty());
        } else {
            self.covers_add_up(n - 1);
            self.idle_chains();
            let c = n - 1;
            let old_ones = self.covered_spots(n - 1);
            assert(self.trie.chains.len() == self.trie.chains@.len());
            if self.given_back(c) {
                assert(self.covered_spots(n) =~= old_ones);
            } else {
                assert(self.trie.alive(c));
                reveal(crate::trie::Trie::shaped);
                assert(self.trie.shaped(c, self.bound()));
                let s = self.trie.chains@[c].spans@;
                runs_add_up(s, s.len() as int);
                let at = run_positions(s, s.len() as int);
                let f = |p: int| Spot { chain: c as usize, pos: p as u32 };
                let own = at.map(f);
                assert forall|p: int| #[trigger] at.contains(p) implies 0 <= p <= u32::MAX by {
                    let i = choose|i: int|
                        0 <= i < s.len() && (#[trigger] s[i]).start <= p < spans::stop(s[i]);
                    assert(spans::sound_span(s[i]));
                }
                assert(vstd::relations::injective_on(f, at)) by {
                    assert forall|x: int, y: int|
                        at.contains(x) && at.contains(y) && #[trigger] f(x) == #[trigger] f(
                            y,
                        ) implies x == y by {}
                }
                vstd::set_lib::lemma_map_size(at, own, f);
                assert forall|x: Spot| #[trigger] own.contains(x) implies x.chain == c by {
                    let p = choose|p: int| at.contains(p) && f(p) == x;
                }
                assert(old_ones.disjoint(own));
                vstd::set_lib::lemma_set_disjoint_lens(old_ones, own);
                assert(self.covered_spots(n) =~= old_ones.union(own)) by {
                    assert forall|x: Spot| #[trigger] self.covered_spots(n).contains(x)
                        == old_ones.union(own).contains(x) by {
                        if self.covered_spots(n).contains(x) && x.chain == c {
                            let h = choose|h: u32|
                                self.trie.covers(x.chain as int, x.pos as int, h);
                            assert(spans::covers(s, x.pos as int, h));
                            let i = choose|i: int|
                                0 <= i < s.len() && (#[trigger] s[i]).start <= x.pos < spans::stop(
                                    s[i],
                                ) && s[i].holders@.contains(h);
                            assert(at.contains(x.pos as int));
                            assert(f(x.pos as int) == x);
                        }
                        if own.contains(x) {
                            let p = choose|p: int| at.contains(p) && f(p) == x;
                            let i = choose|i: int|
                                0 <= i < s.len() && (#[trigger] s[i]).start <= p < spans::stop(
                                    s[i],
                                );
                            assert(spans::sound_span(s[i]));
                            let h = s[i].holders@[0];
                            assert(s[i].holders@.contains(h));
                            assert(spans::covers(s, p, h));
                            assert(self.trie.covers(x.chain as int, x.pos as int, h));
                        }
                    }
                }
            }
        }
    }

    /// Covered spots and held placements are the same in number.
    proof fn placements_add_up(&self)
        requires
            self.wf(),
        ensures
            self.cover_total(self.trie.chains@.len() as int) == self@.table.placements().len(),
    {
        let n = self.trie.chains@.len() as int;
        self.covers_add_up(n);
        let k = self.covered_spots(n);
        let f = |s: Spot| self.trie.path(s.chain as int, s.pos as int);
        let u = self@.table;
        assert forall|s: Spot| #[trigger] k.contains(s) implies self.trie.node(
            s.chain as int,
            s.pos as int,
        ) by {
            self.covered_is_node(s);
        }
        assert(vstd::relations::injective_on(f, k)) by {
            assert forall|a: Spot, b: Spot|
                k.contains(a) && k.contains(b) && #[trigger] f(a) == #[trigger] f(b) implies a
                == b by {
                crate::core3::spots_are_paths(self.trie, self.bound(), a, b);
            }
        }
        assert(k.map(f) =~= u.placements()) by {
            assert forall|q: Seq<u64>| #[trigger] k.map(f).contains(q) == u.placements().contains(
                q,
            ) by {
                if k.map(f).contains(q) {
                    let s = choose|s: Spot| k.contains(s) && f(s) == q;
                    self.covered_is_placed(s);
                }
                if u.placements().contains(q) {
                    let s = self.placed_is_spot(q);
                    self.covered_is_placed(s);
                    assert(k.contains(s));
                    assert(f(s) == q);
                }
            }
        }
        vstd::set_lib::lemma_map_size(k, u.placements(), f);
    }

    /// Only positions of the trie are covered.
    proof fn covered_is_node(&self, s: Spot)
        requires
            self.wf(),
            exists|h: u32| self.trie.covers(s.chain as int, s.pos as int, h),
        ensures
            self.trie.node(s.chain as int, s.pos as int),
    {
        let h = choose|h: u32| self.trie.covers(s.chain as int, s.pos as int, h);
        reveal(crate::trie::Trie::shaped);
        assert(self.trie.shaped(s.chain as int, self.bound()));
        let ch = self.trie.chains@[s.chain as int];
        spans::cover_inside(ch.spans@, ch.base_pos as int, tip(ch), s.pos as int, h);
    }

    /// Held placements stand somewhere in the trie.
    proof fn placed_is_spot(&self, q: Seq<u64>) -> (s: Spot)
        requires
            self.wf(),
            self@.table.placements().contains(q),
        ensures
            self.trie.node(s.chain as int, s.pos as int),
            self.trie.path(s.chain as int, s.pos as int) == q,
            s.chain < self.trie.chains@.len(),
    {
        let u = self@.table;
        let t = self.spots();
        crate::core3::path_table_basics(self.trie, t);
        let j = choose|j: int| #[trigger] u.occupied(j) && model::holds(u.blocks(j), q);
        let k = choose|k: u64| #[trigger] u.blocks(j).contains_key(k) && u.blocks(j)[k] == q;
        assert(t.occupied(j) && t.blocks(j).contains_key(k));
        t.blocks(j)[k]
    }

    /// Valid indexes pass the audit.
    pub proof fn valid_is_coherent(&self)
        requires
            self.wf(),
        ensures
            self.coherent(),
    {
        let t = self.holders@;
        self.holders.laid_out();
        self.holders.names_match();
        self.idle_chains();
        self.placements_add_up();
        crate::core3::path_table_basics(self.trie, self.spots());
        assert(self.trie.chains.len() == self.trie.chains@.len());
        assert forall|c: int| 0 <= c < self.trie.chains@.len() implies #[trigger] self.chain_coherent(
            c,
        ) by {
            if self.trie.alive(c) {
                self.alive_is_coherent(c);
            }
        }
        assert(self.roots_coherent()) by {
            reveal(crate::trie::Trie::roots_ok);
            assert forall|l: u64| #[trigger] self.trie.roots@.contains_key(l) implies ({
                let c = self.trie.roots@[l];
                &&& c < self.trie.chains@.len()
                &&& self.trie.chains@[c as int].parent is None
                &&& self.trie.chains@[c as int].start_lineage == l
                &&& !self.given_back(c as int)
            }) by {
                assert(self.trie.alive(self.trie.roots@[l] as int));
            }
        }
        assert(self.keys_coherent()) by {
            assert forall|i: int, k: u64|
                t.occupied(i) && #[trigger] t.blocks(i).contains_key(k) implies self.spot_coherent(
                i,
                t.blocks(i)[k],
            ) by {
                let s = t.blocks(i)[k];
                assert(self.trie.node(s.chain as int, s.pos as int));
                reveal(RadixTree3::backed);
                assert(i == (i as u32) as int);
                assert(model::holds(t.blocks(i), s));
                assert(self.trie.covers(s.chain as int, s.pos as int, i as u32));
            }
        }
        assert(self.coverage_coherent()) by {
            assert forall|i: int, c: int, p: u32|
                #![trigger self.holders@.occupied(i), spans::covers(self.trie.chains@[c].spans@, p as int, i as u32)]
                t.occupied(i) && i <= u32::MAX && 0 <= c < self.trie.chains@.len()
                    && !self.given_back(c) && spans::covers(
                    self.trie.chains@[c].spans@,
                    p as int,
                    i as u32,
                ) implies model::holds(t.blocks(i), Spot { chain: c as usize, pos: p }) by {
                reveal(RadixTree3::backed);
                let s = Spot { chain: c as usize, pos: p };
                assert(self.trie.covers(s.chain as int, s.pos as int, i as u32));
            }
        }
    }

    /// A chain in use keeps what chains promise.
    proof fn alive_is_coherent(&self, c: int)
        requires
            self.wf(),
            self.trie.alive(c),
            !self.given_back(c),
        ensures
            self.chain_coherent(c),
    {
        let ch = self.trie.chains@[c];
        assert(self.trie.chains.len() == self.trie.chains@.len());
        reveal(crate::trie::Trie::shaped);
        assert(self.trie.shaped(c, self.bound()));
        assert(self.runs_live(c)) by {
            assert forall|i: int, j: int|
                #![trigger self.trie.chains@[c].spans@[i].holders@[j]]
                0 <= i < ch.spans@.len() && 0 <= j
                    < ch.spans@[i].holders@.len() implies self.holders@.occupied(
                self.trie.chains@[c].spans@[i].holders@[j] as int,
            ) by {
                let h = ch.spans@[i].holders@[j];
                let p = ch.spans@[i].start;
                assert(spans::sound_span(ch.spans@[i]));
                assert(ch.spans@[i].holders@.contains(h));
                assert(spans::covers(ch.spans@, p as int, h));
                reveal(RadixTree3::backed);
                let s = Spot { chain: c as usize, pos: p };
                assert(self.trie.covers(s.chain as int, s.pos as int, h));
            }
        }
        assert(self.forks_coherent(c)) by {
            reveal(crate::trie::Trie::bears);
            reveal(crate::trie::Trie::hung);
            let f = ch.children@;
            assert(self.trie.bears(c));
            assert forall|i: int| 0 <= i < f.len() implies self.fork_coherent(
                c,
                #[trigger] f[i],
            ) by {
                assert(f.contains(f[i]));
                assert(self.trie.forks_to(c, f[i]));
                assert(self.trie.alive(f[i].2 as int));
                assert(self.trie.hung(f[i].2 as int));
            }
        }
        assert(self.link_coherent(c)) by {
            reveal(crate::trie::Trie::hung);
            assert(self.trie.hung(c));
        }
        rolled_is_lineage(ch, ch.contents@.len() as int);
        assert(ch.path@.take(tip(ch)) =~= ch.path@);
    }
}

/// Rolling over a chain's contents gives the fingerprint of its path.
proof fn rolled_is_lineage(ch: Chain, n: int)
    requires
        1 <= n <= ch.contents@.len(),
        ch.path@.len() == tip(ch),
        forall|i: int|
            0 <= i < ch.contents@.len() ==> #[trigger] ch.contents@[i] == ch.path@[ch.base_pos + i],
        ch.start_lineage == crate::lineage::lineage_of(ch.path@.take(ch.base_pos + 1)),
    ensures
        rolled(ch.start_lineage, ch.contents@, n) == crate::lineage::lineage_of(
            ch.path@.take(ch.base_pos + n),
        ),
    decreases n,
{
    if n > 1 {
        rolled_is_lineage(ch, n - 1);
        let q = ch.path@.take(ch.base_pos + n);
        assert(q.drop_last() =~= ch.path@.take(ch.base_pos + n - 1));
        assert(q.last() == ch.contents@[n - 1]);
    }
}

impl RadixTree3 {
    /// An index that passes the audit keeps its promises. Every holder is found under its
    /// name; free seats are free. Every chain in use has contents, and runs that are
    /// not empty, inside it, in order, apart, and of live holders alone; its forks lead to
    /// chains that start there and say so; its last fingerprint follows from its first.
    /// Every key leads to a position that its holder covers, every position that a holder
    /// covers has a key, and both are counted.
    proof fn audits_miss_nothing(
        &self,
        i: int,
        k: u64,
        c: int,
        a: int,
        b: int,
        p: u32,
        h: u32,
    )
        requires
            self.coherent(),
        ensures
            ({
                let t = self.holders@;
                let ch = self.trie.chains@[c];
                let idle = self.trie.free_chains@.contains(c as usize);
                let used = 0 <= c < self.trie.chains@.len() && !idle;
                let runs = ch.spans@;
                let forks = ch.children@;
                &&& t.occupied(i) ==> name_index(self.holders.by_name)[t.name(i)] == i
                &&& 0 <= i < self.holders.free@.len() ==> !t.occupied(self.holders.free@[i] as int)
                &&& 0 <= c < self.trie.chains@.len() && idle ==> ch.contents@.len() == 0
                &&& used ==> ch.contents@.len() > 0
                &&& used && 0 <= a < runs.len() ==> runs[a].len > 0 && runs[a].holders@.len() > 0
                    && ch.base_pos <= runs[a].start && runs[a].start + runs[a].len <= ch.base_pos
                    + ch.contents@.len()
                &&& used && 0 <= a < b < runs.len() ==> runs[a].start + runs[a].len
                    <= runs[b].start
                &&& used && 0 <= a && a + 1 < runs.len() && runs[a].start + runs[a].len == runs[a
                    + 1].start ==> runs[a].holders@ != runs[a + 1].holders@
                &&& used && 0 <= a < runs.len() && runs[a].holders@.contains(h) ==> t.occupied(
                    h as int,
                )
                &&& used && 0 <= a < runs.len() && 0 <= i < b < runs[a].holders@.len()
                    ==> runs[a].holders@[i] < runs[a].holders@[b]
                &&& used && 0 <= a < forks.len() ==> ch.base_pos <= forks[a].0 < ch.base_pos
                    + ch.contents@.len() && forks[a].2 < self.trie.chains@.len()
                    && self.trie.chains@[forks[a].2 as int].parent == Some((c as usize, forks[a].0))
                    && self.trie.chains@[forks[a].2 as int].base_pos == forks[a].0 + 1
                &&& used && ch.parent is None ==> ch.base_pos == 0
                    && self.trie.roots@.contains_key(ch.start_lineage)
                    && self.trie.roots@[ch.start_lineage] == c
                &&& used && ch.parent is Some ==> self.trie.chains@[(ch.parent->0).0 as int].children@.contains(
                    ((ch.parent->0).1, ch.contents@[0], c as usize),
                )
                &&& used && ch.contents@.len() == 1 ==> ch.end_lineage == ch.start_lineage
                &&& t.occupied(i) && t.blocks(i).contains_key(k) ==> {
                    let s = t.blocks(i)[k];
                    &&& s.chain < self.trie.chains@.len()
                    &&& !self.trie.free_chains@.contains(s.chain)
                    &&& exists|x: int|
                        0 <= x < self.trie.chains@[s.chain as int].spans@.len() && (
                        #[trigger] self.trie.chains@[s.chain as int].spans@[x]).start <= s.pos
                            < self.trie.chains@[s.chain as int].spans@[x].start
                            + self.trie.chains@[s.chain as int].spans@[x].len
                            && self.trie.chains@[s.chain as int].spans@[x].holders@.contains(
                            i as u32,
                        )
                }
                &&& used && 0 <= a < runs.len() && runs[a].start <= p < runs[a].start + runs[a].len
                    && runs[a].holders@.contains(h) ==> model::holds(
                    t.blocks(h as int),
                    Spot { chain: c as usize, pos: p },
                )
                &&& self.holder_blocks_total == t.pairs().len()
            }),
    {
        let t = self.holders@;
        if 0 <= c < self.trie.chains@.len() {
            assert(self.chain_coherent(c));
            let ch = self.trie.chains@[c];
            let runs = ch.spans@;
            if !self.given_back(c) && 0 <= a < runs.len() {
                assert(spans::sound_span(runs[a]));
                if a + 1 < runs.len() {
                    assert(spans::apart(runs[a], runs[a + 1]));
                }
                if runs[a].holders@.contains(h) {
                    let j = runs[a].holders@.index_of(h);
                    assert(t.occupied(self.trie.chains@[c].spans@[a].holders@[j] as int));
                    if runs[a].start <= p < runs[a].start + runs[a].len {
                        assert(spans::covers(self.trie.chains@[c].spans@, p as int, h));
                        assert(t.occupied(h as int));
                        assert(spans::covers(self.trie.chains@[c].spans@, p as int, (h as int) as u32));
                    }
                }
            }
            if !self.given_back(c) && 0 <= a < ch.children@.len() {
                assert(self.fork_coherent(c, ch.children@[a]));
            }
        }
        if t.occupied(i) && t.blocks(i).contains_key(k) {
            let s = t.blocks(i)[k];
            assert(self.spot_coherent(i, s));
            let v = self.trie.chains@[s.chain as int].spans@;
            assert(spans::covers(v, s.pos as int, i as u32));
        }
    }
}

} // verus!
