//! What a load on an index is made of: arguments, chains, updates, ranks.

use crate::bench::at_rank;
use crate::bench::content_at;
use crate::bench::contents_of;
use crate::bench::flag_at;
use crate::bench::flag_value;
use crate::bench::hot_pick;
use crate::bench::hot_seed;
use crate::bench::is_sort_of;
use crate::bench::or_default;
use crate::bench::placement;
use crate::bench::published;
use crate::bench::url_of;
use crate::bench::wire_blocks;
use crate::bench::Options;
use crate::bench::Publisher;
use crate::mock::hash::scrambled;
use crate::proto::EventView;
use crate::text::decimal;
use crate::text::numbers_are_told_apart;
use crate::text::written_numbers_are_read;
use crate::wire_hash::sequence_at;
use crate::wire_hash::ContentHash;
use vstd::prelude::*;

verus! {

/// A flag counts where it first stands, with the number behind it; without one, or with
/// one that is too large, or where the flag is last, the default counts.
pub proof fn flags_count_where_they_first_stand(
    args: Seq<String>,
    flag: Seq<char>,
    i: int,
    n: nat,
    max: nat,
    default: nat,
)
    requires
        0 <= i <= args.len(),
        forall|j: int| 0 <= j < i ==> (#[trigger] args[j])@ != flag,
        i < args.len() ==> args[i]@ == flag,
        i + 1 < args.len() ==> args[i + 1]@ == decimal(n),
    ensures
        i + 1 < args.len() && n <= max ==> or_default(flag_value(args, flag, max), default) == n,
        i + 1 < args.len() && n > max ==> or_default(flag_value(args, flag, max), default)
            == default,
        i + 1 >= args.len() ==> or_default(flag_value(args, flag, max), default) == default,
{
    flag_stands(args, flag, i);
    written_numbers_are_read(n);
}

proof fn flag_stands(args: Seq<String>, flag: Seq<char>, i: int)
    requires
        0 <= i <= args.len(),
        forall|j: int| 0 <= j < i ==> (#[trigger] args[j])@ != flag,
        i < args.len() ==> args[i]@ == flag,
    ensures
        flag_at(args, flag) == i,
    decreases i,
{
    if i > 0 {
        let rest = args.skip(1);
        assert(args[0]@ != flag);
        assert forall|j: int| 0 <= j < i - 1 implies (#[trigger] rest[j])@ != flag by {
            assert(args[j + 1]@ != flag);
        }
        flag_stands(rest, flag, i - 1);
    }
}

/// A chain has one content per position, and the content of a position is made of the seed
/// and the position alone; it is never 0.
pub proof fn chains_are_made_of_their_seed(seed: u64, len: nat, longer: nat, i: int)
    requires
        len <= longer,
        longer <= u64::MAX,
    ensures
        contents_of(seed, len).len() == len,
        contents_of(seed, longer).take(len as int) == contents_of(seed, len),
        0 <= i < len ==> contents_of(seed, len)[i].0 != 0 && contents_of(seed, len)[i].0 | 1
            == contents_of(seed, len)[i].0,
        0 <= i < len ==> contents_of(seed, len)[i].0 >> 1 == scrambled(seed ^ (i as u64)) >> 1,
{
    assert(contents_of(seed, longer).take(len as int) =~= contents_of(seed, len));
    if 0 <= i < len {
        let x = scrambled(seed ^ (i as u64));
        let y = contents_of(seed, len)[i].0;
        assert(y == content_at(seed, i as u64).0);
        assert((x | 1) != 0 && (x | 1) | 1 == (x | 1) && (x | 1) >> 1 == x >> 1) by (bit_vector);
    }
}

/// No two hot chains are made of the same numbers, as far as chains are at most 4,096
/// blocks long.
pub proof fn hot_chains_are_apart(w: usize, s: usize, v: usize, t: usize, a: u64, b: u64)
    requires
        (w, s) != (v, t),
        w < 0x1_0000_0000,
        v < 0x1_0000_0000,
        s < 0x10_0000,
        t < 0x10_0000,
        a < 0x1000,
        b < 0x1000,
    ensures
        hot_seed(w, s) ^ a != hot_seed(v, t) ^ b,
{
    let (w, s, v, t) = (w as u64, s as u64, v as u64, t as u64);
    let x = (w << 20) | s;
    let y = (v << 20) | t;
    assert(x < 0x10_0000_0000_0000 && y < 0x10_0000_0000_0000 && x != y) by (bit_vector)
        requires
            x == (w << 20) | s,
            y == (v << 20) | t,
            w < 0x1_0000_0000,
            v < 0x1_0000_0000,
            s < 0x10_0000,
            t < 0x10_0000,
            w != v || s != t,
    ;
    let p = x.wrapping_mul(0x1000);
    let q = y.wrapping_mul(0x1000);
    assert(p == x * 0x1000 && q == y * 0x1000);
    assert(p ^ a != q ^ b) by (bit_vector)
        requires
            p == x * 0x1000,
            q == y * 0x1000,
            x != y,
            x < 0x10_0000_0000_0000,
            y < 0x10_0000_0000_0000,
            a < 0x1000,
            b < 0x1000,
    ;
}

/// An update places its chain whole and from the start: every content in its order, each
/// under the hash of the chain up to it, of tokens in blocks of 128.
pub proof fn updates_place_whole_chains(holder: Seq<char>, contents: Seq<ContentHash>, i: int)
    ensures
        ({
            let u = placement(holder, contents);
            &&& u.holder == holder
            &&& u.keyspace is Some && u.keyspace->0.model == "loadbench"@
                && u.keyspace->0.block_size == 128
            &&& u.epoch == 1 && u.seq == 0 && !u.dropped && u.added is None
            &&& u.events.len() == 1
            &&& u.events[0] matches EventView::Stored(parent, blocks) && parent is None
                && blocks.len() == contents.len() && (0 <= i < contents.len()
                ==> blocks[i].content_hash == contents[i].0 && blocks[i].seq_hash == sequence_at(
                contents,
                i,
            ))
        }),
{
    assert(placement(holder, contents).events[0] == EventView::Stored(None, wire_blocks(contents)));
}

/// Every worker has an address of its own.
pub proof fn workers_have_their_own_address(v: nat, w: nat)
    ensures
        url_of(v as int) == url_of(w as int) ==> v == w,
{
    let (a, b) = (decimal((v % 250) as nat), decimal((w % 250) as nat));
    let (c, d) = (decimal((9000 + v / 250) as nat), decimal((9000 + w / 250) as nat));
    if url_of(v as int) == url_of(w as int) {
        reveal_strlit("grpc://10.0.0.");
        reveal_strlit(":");
        let p = "grpc://10.0.0."@;
        let (x, y) = (p + a + ":"@ + c, p + b + ":"@ + d);
        written_numbers_are_read((v % 250) as nat);
        written_numbers_are_read((w % 250) as nat);
        let n = p.len() as int;
        if a.len() < b.len() {
            assert(x[n + a.len()] == ':');
            assert(y[n + a.len()] == b[a.len() as int]);
        } else if b.len() < a.len() {
            assert(y[n + b.len()] == ':');
            assert(x[n + b.len()] == a[b.len() as int]);
        }
        assert(a =~= b) by {
            assert forall|i: int| 0 <= i < a.len() implies a[i] == b[i] by {
                assert(x[n + i] == a[i] && y[n + i] == b[i]);
            }
        }
        let m = n + a.len() + 1;
        assert(x.skip(m) =~= c);
        assert(y.skip(m) =~= d);
        numbers_are_told_apart((v % 250) as nat, (w % 250) as nat);
        numbers_are_told_apart((9000 + v / 250) as nat, (9000 + w / 250) as nat);
    }
}

/// A gateway publishes a hot chain of some worker, or one that goes on behind it with 32
/// blocks; of a hundred numbers that can come as many repeat a chain as was asked for.
pub proof fn publishers_repeat_hot_chains(p: Publisher, options: Options, i: int)
    requires
        options.workers > 0,
        options.hot_per_worker > 0,
        p.nonce < u64::MAX,
    ensures
        ({
            let rng = scrambled(p.rng);
            let (w, slot) = hot_pick(rng, options.workers as nat, options.hot_per_worker as nat);
            let (url, chain) = published(p, options);
            let n = options.chain_len as nat;
            let repeated = rng % 100 < options.dup_pct;
            &&& 0 <= w < options.workers && 0 <= slot < options.hot_per_worker
            &&& w == rng % options.workers as u64
            &&& slot == (rng as int / 0x1_0000_0000) % options.hot_per_worker as int
            &&& url == url_of(w)
            &&& chain.len() == if repeated {
                n
            } else {
                n + 32
            }
            &&& chain.take(n as int) == contents_of(hot_seed(w as usize, slot as usize), n)
            &&& !repeated && 0 <= i < 32 ==> chain[n + i] == content_at(
                p.seed.wrapping_mul(0x51D) ^ ((p.nonce + 1) as u64),
                i as u64,
            )
        }),
{
    let rng = scrambled(p.rng);
    assert(rng >> 32 == rng / 0x1_0000_0000) by (bit_vector);
    let (w, slot) = hot_pick(rng, options.workers as nat, options.hot_per_worker as nat);
    let n = options.chain_len as nat;
    let hot = contents_of(hot_seed(w as usize, slot as usize), n);
    assert(published(p, options).1.take(n as int) =~= hot);
}

/// The number at a rank has as many numbers before it, none of them greater, and none
/// behind it is smaller; ranks that there are not stand for the greatest number.
pub proof fn ranks_split_the_numbers(sorted: Seq<u64>, ns: Seq<u64>, rank: usize, i: int)
    requires
        is_sort_of(sorted, ns),
        ns.len() > 0,
    ensures
        sorted.len() == ns.len(),
        0 <= i < sorted.len() && i <= rank ==> sorted[i] <= at_rank(sorted, rank),
        rank <= i < sorted.len() ==> at_rank(sorted, rank) <= sorted[i],
        rank >= ns.len() && 0 <= i < ns.len() ==> ns[i] <= at_rank(sorted, rank),
        ns.contains(at_rank(sorted, rank)),
{
    broadcast use vstd::seq_lib::group_to_multiset_ensures;

    assert(sorted.to_multiset().len() == ns.to_multiset().len());
    let x = at_rank(sorted, rank);
    assert(sorted.contains(x)) by {
        if rank < sorted.len() {
            assert(sorted[rank as int] == x);
        } else {
            assert(sorted[sorted.len() - 1] == x);
        }
    }
    assert(ns.to_multiset().count(x) > 0);
    if rank >= ns.len() && 0 <= i < ns.len() {
        let y = ns[i];
        assert(ns.contains(y));
        assert(sorted.to_multiset().count(y) > 0);
        let k = sorted.index_of(y);
        if k < sorted.len() - 1 {
            assert(sorted[k] <= sorted[sorted.len() - 1]);
        }
    }
}

} // verus!
