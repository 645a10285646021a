//! The holder table that both cores share: names, generational slots, and each
//! holder's map from block keys to placements.

use crate::fx::fx_map;
use crate::fx::hashes_consistently;
use crate::fx::name_index;
use crate::fx::names_get;
use crate::fx::names_insert;
use crate::fx::names_new;
use crate::fx::names_remove;
use crate::model::HolderView;
use crate::model::SlotView;
use crate::model::TableView;
use crate::sorted::before;
use crate::sorted::sort_pairs;
use crate::types::HolderId;
use rustc_hash::FxHashMap;
use vstd::prelude::*;
use vstd::std_specs::iter::IteratorSpec;

verus! {

pub(crate) struct Holder<P> {
    pub(crate) name: String,
    pub(crate) registry: FxHashMap<u64, P>,
}

pub(crate) struct Slot<P> {
    pub(crate) generation: u64,
    /// `None` while the slot awaits reuse.
    pub(crate) state: Option<Holder<P>>,
}

pub(crate) struct HolderTable<P> {
    pub(crate) slots: Vec<Slot<P>>,
    pub(crate) by_name: FxHashMap<String, u32>,
    pub(crate) free: Vec<u32>,
}

impl<P> View for HolderTable<P> {
    type V = TableView<P>;

    closed spec fn view(&self) -> TableView<P> {
        TableView {
            slots: Seq::new(self.slots@.len(), |i: int| slot_view(self.slots@[i])),
            free: self.free@,
        }
    }
}

pub(crate) open spec fn slot_view<P>(s: Slot<P>) -> SlotView<P> {
    SlotView {
        generation: s.generation,
        state: match s.state {
            None => None,
            Some(h) => Some(HolderView { name: h.name@, blocks: h.registry@ }),
        },
    }
}

impl<P> HolderTable<P> {
    /// How the table lies behind its view.
    pub(crate) proof fn laid_out(&self)
        ensures
            self@.slots.len() == self.slots@.len(),
            self@.free == self.free@,
            forall|i: int|
                0 <= i < self.slots@.len() ==> #[trigger] self@.slots[i] == slot_view(
                    self.slots@[i],
                ),
            forall|i: int| #[trigger]
                self@.occupied(i) <==> 0 <= i < self.slots@.len() && self.slots@[i].state is Some,
            forall|i: int| #[trigger]
                self@.occupied(i) ==> self@.name(i) == self.slots@[i].state->0.name@
                    && self@.blocks(i) == self.slots@[i].state->0.registry@,
    {
    }

    /// There are as many names as holders, and each leads to its holder.
    pub(crate) proof fn names_match(&self)
        requires
            self.wf(),
        ensures
            forall|i: int| #[trigger]
                self@.occupied(i) ==> name_index(self.by_name).contains_key(self@.name(i))
                    && name_index(self.by_name)[self@.name(i)] == i,
            name_index(self.by_name).len() == self@.residents().len(),
    {
        let names = name_index(self.by_name).dom();
        let seats = self@.residents();
        let all = vstd::set_lib::set_int_range(0, self@.slots.len() as int);
        vstd::set_lib::lemma_int_range(0, self@.slots.len() as int);
        assert(seats.subset_of(all));
        vstd::set_lib::lemma_len_subset(seats, all);
        let f = |i: int| self@.name(i);
        assert(vstd::relations::injective_on(f, seats)) by {
            assert forall|i: int, j: int|
                seats.contains(i) && seats.contains(j) && #[trigger] f(i) == #[trigger] f(
                    j,
                ) implies i == j by {
                assert(self@.occupied(i) && self@.occupied(j));
            }
        }
        assert(seats.map(f) =~= names) by {
            assert forall|n: Seq<char>| #[trigger] seats.map(f).contains(n) == names.contains(n) by {
                if seats.map(f).contains(n) {
                    let i = choose|i: int| seats.contains(i) && f(i) == n;
                    assert(self@.occupied(i));
                }
                if names.contains(n) {
                    assert(name_index(self.by_name).contains_key(n));
                    let i = name_index(self.by_name)[n] as int;
                    assert(self@.occupied(i));
                    assert(seats.contains(i) && f(i) == n);
                }
            }
        }
        vstd::set_lib::lemma_map_size(seats, names, f);
    }

    pub(crate) open spec fn wf(&self) -> bool {
        self@.wf() && self.consistent()
    }

    /// The index and the maps are in order.
    pub(crate) closed spec fn consistent(&self) -> bool {
        &&& self.indexed()
        &&& forall|i: int|
            0 <= i < self.slots@.len() && (#[trigger] self.slots@[i]).state is Some
                ==> hashes_consistently(self.slots@[i].state->0.registry)
    }

    /// The name index leads to exactly the live holders.
    pub(crate) closed spec fn indexed(&self) -> bool {
        &&& forall|i: int| #[trigger]
            self@.occupied(i) ==> name_index(self.by_name).contains_key(self@.name(i))
                && name_index(self.by_name)[self@.name(i)] == i
        &&& forall|n: Seq<char>| #[trigger]
            name_index(self.by_name).contains_key(n) ==> self@.occupied(
                name_index(self.by_name)[n] as int,
            ) && self@.name(name_index(self.by_name)[n] as int) == n
    }

    pub(crate) fn new() -> (r: HolderTable<P>)
        ensures
            r.wf(),
            r@.slots.len() == 0,
            r@.free.len() == 0,
    {
        HolderTable { slots: Vec::new(), by_name: names_new(), free: Vec::new() }
    }

    pub(crate) fn create(&mut self, name: &str) -> (id: HolderId)
        requires
            old(self).wf(),
            old(self)@.has_room(name@),
        ensures
            final(self).wf(),
            old(self)@.created(name@, final(self)@, id),
    {
        match names_get(&self.by_name, name) {
            Some(index) => {
                assert(self@.occupied(index as int));
                return HolderId::assemble(index, self.slots[index as usize].generation);
            },
            None => {},
        }
        proof {
            assert(!self@.has_name(name@));
        }
        let ghost pre = *self;
        let state = Holder { name: name.to_owned(), registry: fx_map() };
        let index: u32 = match self.free.pop() {
            Some(index) => {
                assert(pre@.free.last() == index);
                assert(pre@.free[pre@.free.len() - 1] == index);
                assert(index < self.slots@.len());
                self.slots[index as usize].state = Some(state);
                index
            },
            None => {
                self.slots.push(Slot { generation: 0, state: Some(state) });
                (self.slots.len() - 1) as u32
            },
        };
        names_insert(&mut self.by_name, name.to_owned(), index);
        let id = HolderId::assemble(index, self.slots[index as usize].generation);
        proof {
            let post = pre@.with_holder(index as int, name@);
            assert(self@.slots =~= post.slots);
            assert(self@.free =~= post.free);
            assert(self@ == post);
            assert forall|i: int| i != index implies self@.occupied(i) == pre@.occupied(i) && (
            self@.occupied(i) ==> self@.name(i) == pre@.name(i) && self@.blocks(i) == pre@.blocks(
                i,
            )) by {}
            assert(self@.occupied(index as int) && self@.name(index as int) == name@);
            assert forall|i: int| self@.occupied(i) && i != index implies self@.name(i)
                != name@ by {
                assert(pre@.occupied(i));
            }
            assert forall|i: int|
                0 <= i < self@.slots.len() && !#[trigger] self@.occupied(
                    i,
                ) implies self@.free.contains(i as u32) by {
                assert(!pre@.occupied(i));
                let j = choose|j: int| 0 <= j < pre@.free.len() && pre@.free[j] == i as u32;
                assert(self@.free[j] == i as u32);
            }
            assert forall|i: int| 0 <= i < self@.free.len() implies (#[trigger] self@.free[i])
                < self@.slots.len() && !self@.occupied(self@.free[i] as int) by {
                assert(self@.free[i] == pre@.free[i]);
                assert(!pre@.occupied(pre@.free[i] as int));
            }
            assert forall|n: Seq<char>| #[trigger]
                name_index(self.by_name).contains_key(n) implies self@.occupied(
                name_index(self.by_name)[n] as int,
            ) && self@.name(name_index(self.by_name)[n] as int) == n by {
                if n != name@ {
                    assert(name_index(pre.by_name).contains_key(n));
                    assert(pre@.occupied(name_index(pre.by_name)[n] as int));
                }
            }
            assert forall|i: int| #[trigger]
                self@.occupied(i) implies name_index(self.by_name).contains_key(self@.name(i))
                && name_index(self.by_name)[self@.name(i)] == i by {
                if i != index {
                    assert(pre@.occupied(i));
                }
            }
            assert(self.indexed());
            assert(self@.wf());
        }
        id
    }

    pub(crate) fn is_live(&self, id: HolderId) -> (r: bool)
        ensures
            r == self@.live(id),
    {
        let (index, generation) = id.parts();
        if (index as usize) < self.slots.len() {
            let slot = &self.slots[index as usize];
            slot.generation == generation && slot.state.is_some()
        } else {
            false
        }
    }

    pub(crate) fn name_of(&self, id: HolderId) -> (r: Option<&str>)
        ensures
            r is Some <==> self@.live(id),
            r is Some ==> r->0@ == self@.name(id.slot() as int),
    {
        let (index, generation) = id.parts();
        if (index as usize) < self.slots.len() {
            let slot = &self.slots[index as usize];
            if slot.generation == generation {
                match &slot.state {
                    Some(h) => Some(h.name.as_str()),
                    None => None,
                }
            } else {
                None
            }
        } else {
            None
        }
    }

    /// The id of the holder that lives in slot `index`.
    pub(crate) fn id_of(&self, index: u32) -> (r: HolderId)
        requires
            self@.occupied(index as int),
        ensures
            r.slot() == index,
            self@.live(r),
    {
        HolderId::assemble(index, self.slots[index as usize].generation)
    }

    pub(crate) fn count(&self, index: u32) -> (r: usize)
        requires
            self.wf(),
            self@.occupied(index as int),
        ensures
            r == self@.blocks(index as int).len(),
    {
        match &self.slots[index as usize].state {
            Some(h) => h.registry.len(),
            None => 0,
        }
    }

    pub(crate) fn has(&self, index: u32, key: u64) -> (r: bool)
        requires
            self.wf(),
            self@.occupied(index as int),
        ensures
            r == self@.blocks(index as int).contains_key(key),
    {
        match &self.slots[index as usize].state {
            Some(h) => h.registry.contains_key(&key),
            None => false,
        }
    }

    pub(crate) fn insert(&mut self, index: u32, key: u64, p: P)
        requires
            old(self).wf(),
            old(self)@.occupied(index as int),
        ensures
            final(self).wf(),
            final(self)@ == old(self)@.with_blocks(
                index as int,
                old(self)@.blocks(index as int).insert(key, p),
            ),
    {
        let ghost pre = *self;
        match &mut self.slots[index as usize].state {
            Some(h) => {
                h.registry.insert(key, p);
            },
            None => {},
        }
        proof {
            self.blocks_replaced(pre, index, pre@.blocks(index as int).insert(key, p));
        }
    }

    pub(crate) fn remove(&mut self, index: u32, key: u64) -> (r: Option<P>)
        requires
            old(self).wf(),
            old(self)@.occupied(index as int),
        ensures
            final(self).wf(),
            final(self)@ == old(self)@.with_blocks(
                index as int,
                old(self)@.blocks(index as int).remove(key),
            ),
            r == (if old(self)@.blocks(index as int).contains_key(key) {
                Some(old(self)@.blocks(index as int)[key])
            } else {
                None::<P>
            }),
    {
        let ghost pre = *self;
        let r = match &mut self.slots[index as usize].state {
            Some(h) => h.registry.remove(&key),
            None => None,
        };
        proof {
            self.blocks_replaced(pre, index, pre@.blocks(index as int).remove(key));
        }
        r
    }

    proof fn blocks_replaced(self, pre: Self, index: u32, blocks: Map<u64, P>)
        requires
            pre.wf(),
            pre@.occupied(index as int),
            self.by_name == pre.by_name,
            self.free == pre.free,
            self.slots@.len() == pre.slots@.len(),
            forall|i: int|
                0 <= i < self.slots@.len() && i != index ==> self.slots@[i] == pre.slots@[i],
            slot_view(self.slots@[index as int]) == pre@.with_blocks(
                index as int,
                blocks,
            ).slots[index as int],
            hashes_consistently(self.slots@[index as int].state->0.registry),
            blocks.dom().finite(),
        ensures
            self.wf(),
            self@ == pre@.with_blocks(index as int, blocks),
    {
        let post = pre@.with_blocks(index as int, blocks);
        assert(self@.slots =~= post.slots);
        assert(self@ == post);
        assert forall|i: int| #[trigger] self@.occupied(i) == pre@.occupied(i) && (self@.occupied(i)
            ==> self@.name(i) == pre@.name(i)) && (self@.occupied(i) && i != index ==> self@.blocks(
            i,
        ) == pre@.blocks(i)) by {}
    }

    /// Vacates the slot of a live holder; the holder's ids go stale.
    pub(crate) fn retire(&mut self, index: u32)
        requires
            old(self).wf(),
            old(self)@.occupied(index as int),
        ensures
            final(self).wf(),
            final(self)@ == old(self)@.without_holder(index as int),
    {
        let ghost pre = *self;
        let slot = &mut self.slots[index as usize];
        let state = slot.state.take();
        slot.generation = slot.generation.wrapping_add(1);
        match state {
            Some(h) => names_remove(&mut self.by_name, h.name.as_str()),
            None => {},
        }
        self.free.push(index);
        proof {
            let post = pre@.without_holder(index as int);
            assert(self@.slots =~= post.slots);
            assert(self@.free =~= post.free);
            assert(self@ == post);
            assert forall|i: int| i != index implies self@.occupied(i) == pre@.occupied(i) && (
            self@.occupied(i) ==> self@.name(i) == pre@.name(i) && self@.blocks(i) == pre@.blocks(
                i,
            )) by {}
            assert(!self@.occupied(index as int));
            assert forall|i: int| 0 <= i < self@.free.len() implies (#[trigger] self@.free[i])
                < self@.slots.len() && !self@.occupied(self@.free[i] as int) by {
                if i < pre@.free.len() {
                    assert(self@.free[i] == pre@.free[i]);
                }
            }
            assert(self@.free.no_duplicates()) by {
                assert forall|i: int, j: int|
                    0 <= i < self@.free.len() && 0 <= j < self@.free.len() && i
                        != j implies self@.free[i] != self@.free[j] by {
                    if i < pre@.free.len() {
                        assert(!pre@.occupied(pre@.free[i] as int));
                    }
                    if j < pre@.free.len() {
                        assert(!pre@.occupied(pre@.free[j] as int));
                    }
                }
            }
            assert forall|i: int|
                0 <= i < self@.slots.len() && !#[trigger] self@.occupied(
                    i,
                ) implies self@.free.contains(i as u32) by {
                if i == index {
                    assert(self@.free[pre@.free.len() as int] == index);
                } else {
                    assert(!pre@.occupied(i));
                    let j = choose|j: int| 0 <= j < pre@.free.len() && pre@.free[j] == i as u32;
                    assert(self@.free[j] == i as u32);
                }
            }
            assert forall|n: Seq<char>| #[trigger]
                name_index(self.by_name).contains_key(n) implies self@.occupied(
                name_index(self.by_name)[n] as int,
            ) && self@.name(name_index(self.by_name)[n] as int) == n by {
                assert(name_index(pre.by_name).contains_key(n));
                assert(pre@.occupied(name_index(pre.by_name)[n] as int));
            }
            assert forall|i: int| #[trigger]
                self@.occupied(i) implies name_index(self.by_name).contains_key(self@.name(i))
                && name_index(self.by_name)[self@.name(i)] == i by {
                assert(pre@.occupied(i));
            }
            assert(self.indexed());
            assert(self@.wf());
        }
    }

    /// How many holders live.
    pub(crate) fn live_count(&self) -> (r: u64)
        ensures
            self@.residents().finite(),
            r == self@.residents().len(),
    {
        let mut n: u64 = 0;
        let mut i: usize = 0;
        let ghost mut seen: Set<int> = Set::empty();
        proof {
            assert(seen =~= Set::new(|j: int| j < 0 && self@.occupied(j)));
        }
        while i < self.slots.len()
            invariant
                i <= self.slots@.len(),
                n <= i,
                seen.finite(),
                seen.len() == n,
                seen =~= Set::new(|j: int| j < i && self@.occupied(j)),
            decreases self.slots@.len() - i,
        {
            if self.slots[i].state.is_some() {
                n = n + 1;
                proof {
                    assert(self@.occupied(i as int));
                    assert(!seen.contains(i as int));
                    seen = seen.insert(i as int);
                }
            } else {
                assert(!self@.occupied(i as int));
            }
            i = i + 1;
            proof {
                assert(seen =~= Set::new(|j: int| j < i && self@.occupied(j)));
            }
        }
        assert(seen =~= self@.residents());
        n
    }
}

/// The keys of a map, each once, in no particular order.
pub(crate) fn map_keys<V>(m: &FxHashMap<u64, V>) -> (r: Vec<u64>)
    requires
        hashes_consistently(*m),
    ensures
        r@.no_duplicates(),
        forall|k: u64| r@.contains(k) <==> m@.contains_key(k),
{
    let mut out: Vec<u64> = Vec::new();
    let keys = m.keys();
    let ghost all = keys.remaining().unref();
    for k in it: keys
        invariant
            all == it.seq().unref(),
            out@ == all.take(it.index()),
    {
        out.push(*k);
        proof {
            assert(out@ =~= all.take(it.index() + 1));
        }
    }
    proof {
        assert(all.take(all.len() as int) =~= all);
        assert(all.to_set() == m@.dom());
        assert forall|k: u64| out@.contains(k) <==> m@.contains_key(k) by {
            assert(all.to_set().contains(k) <==> all.contains(k));
        }
    }
    out
}

/// A placement that tells its position.
pub(crate) trait Located: Copy {
    spec fn at(self) -> u32;

    fn position_of(&self) -> (r: u32)
        ensures
            r == self.at(),
    ;
}

/// `rows` lists the keys of `m` in block order, with their positions.
pub(crate) open spec fn ordered_rows<P: Located>(m: Map<u64, P>, rows: Seq<(u32, u64)>) -> bool {
    &&& forall|i: int| #![trigger rows[i]]
        0 <= i < rows.len() ==> m.contains_key(rows[i].1) && rows[i].0 == m[rows[i].1].at()
    &&& forall|k: u64| #[trigger] m.contains_key(k) ==> rows.contains((m[k].at(), k))
    &&& forall|i: int, j: int|
        0 <= i < j < rows.len() ==> before(#[trigger] rows[i], #[trigger] rows[j])
    &&& rows.len() == m.len()
}

impl<P: Located> HolderTable<P> {
    /// The blocks of a holder in block order: position first, then key.
    pub(crate) fn ordered(&self, index: u32) -> (r: Vec<(u32, u64)>)
        requires
            self.wf(),
            self@.occupied(index as int),
        ensures
            ordered_rows(self@.blocks(index as int), r@),
    {
        let keys = self.keys(index);
        let ghost m = self@.blocks(index as int);
        let mut rows: Vec<(u32, u64)> = Vec::new();
        let mut i: usize = 0;
        while i < keys.len()
            invariant
                self.wf(),
                self@.occupied(index as int),
                m == self@.blocks(index as int),
                i <= keys@.len(),
                rows@.len() == i,
                forall|k: u64| keys@.contains(k) <==> m.contains_key(k),
                forall|j: int| 0 <= j < i ==> #[trigger] rows@[j] == (m[keys@[j]].at(), keys@[j]),
            decreases keys@.len() - i,
        {
            let key: u64 = keys[i];
            assert(keys@.contains(key));
            match self.get(index, key) {
                Some(p) => rows.push((p.position_of(), key)),
                None => {},
            }
            i = i + 1;
        }
        let ghost raw = rows@;
        proof {
            assert(raw.no_duplicates());
            assert forall|k: u64| #[trigger] m.contains_key(k) implies raw.contains(
                (m[k].at(), k),
            ) by {
                assert(keys@.contains(k));
                let j = choose|j: int| 0 <= j < keys@.len() && keys@[j] == k;
                assert(raw[j] == (m[k].at(), k));
            }
        }
        sort_pairs(&mut rows);
        proof {
            broadcast use vstd::seq_lib::to_multiset_contains;
            broadcast use vstd::seq_lib::to_multiset_len;

            raw.lemma_multiset_has_no_duplicates();
            rows@.lemma_multiset_has_no_duplicates_conv();
            assert forall|i: int, j: int| 0 <= i < j < rows@.len() implies before(
                #[trigger] rows@[i],
                #[trigger] rows@[j],
            ) by {
                assert(rows@[i] != rows@[j]);
            }
            assert forall|i: int| #![trigger rows@[i]]
                0 <= i < rows@.len() implies m.contains_key(rows@[i].1) && rows@[i].0
                == m[rows@[i].1].at() by {
                assert(rows@.contains(rows@[i]));
                assert(rows@.to_multiset().contains(rows@[i]));
                assert(raw.to_multiset().contains(rows@[i]));
                assert(raw.contains(rows@[i]));
                let j = choose|j: int| 0 <= j < raw.len() && raw[j] == rows@[i];
                assert(keys@.contains(keys@[j]));
            }
            assert forall|k: u64| #[trigger] m.contains_key(k) implies rows@.contains(
                (m[k].at(), k),
            ) by {
                assert(raw.contains((m[k].at(), k)));
                assert(raw.to_multiset().contains((m[k].at(), k)));
                assert(rows@.to_multiset().contains((m[k].at(), k)));
            }
            assert(rows@.to_multiset().len() == raw.to_multiset().len());
            assert(keys@.to_set() =~= m.dom());
            keys@.unique_seq_to_set();
        }
        rows
    }
}

impl<P: Copy> HolderTable<P> {
    pub(crate) fn get(&self, index: u32, key: u64) -> (r: Option<P>)
        requires
            self.wf(),
            self@.occupied(index as int),
        ensures
            r == (if self@.blocks(index as int).contains_key(key) {
                Some(self@.blocks(index as int)[key])
            } else {
                None::<P>
            }),
    {
        match &self.slots[index as usize].state {
            Some(h) => match h.registry.get(&key) {
                Some(p) => Some(*p),
                None => None,
            },
            None => None,
        }
    }

    /// The keys of a holder, each once, in no particular order.
    pub(crate) fn keys(&self, index: u32) -> (r: Vec<u64>)
        requires
            self.wf(),
            self@.occupied(index as int),
        ensures
            r@.no_duplicates(),
            forall|k: u64| r@.contains(k) <==> self@.blocks(index as int).contains_key(k),
    {
        match &self.slots[index as usize].state {
            Some(h) => map_keys(&h.registry),
            None => Vec::new(),
        }
    }
}

} // verus!
