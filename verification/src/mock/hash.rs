//! Hashes of token blocks and of image bytes, and the numbers derived from
//! them.

use crate::lineage;
use vstd::prelude::*;

verus! {

/// Start value of every hash.
pub const FNV_SEED: u64 = 0xcbf2_9ce4_8422_2325;

/// Multiplier of every step.
pub const FNV_PRIME: u64 = 0x100_0000_01b3;

/// Added before a number is mixed.
pub const GAMMA: u64 = 0x9e37_79b9_7f4a_7c15;

/// One step of a hash.
pub open spec fn fnv_step(h: u64, x: u64) -> u64 {
    (h ^ x).wrapping_mul(FNV_PRIME)
}

/// A hash `h`, continued over some bytes.
pub open spec fn fnv_bytes(h: u64, bytes: Seq<u8>) -> u64
    decreases bytes.len(),
{
    if bytes.len() == 0 {
        h
    } else {
        fnv_step(fnv_bytes(h, bytes.drop_last()), bytes.last() as u64)
    }
}

/// A hash `h`, continued over some ids.
pub open spec fn fnv_ids(h: u64, ids: Seq<u32>) -> u64
    decreases ids.len(),
{
    if ids.len() == 0 {
        h
    } else {
        fnv_step(fnv_ids(h, ids.drop_last()), ids.last() as u64)
    }
}

/// Hash of a block behind the block with hash `prev`.
pub open spec fn chained(prev: u64, block: Seq<u32>) -> u64 {
    fnv_ids(prev ^ FNV_PRIME, block)
}

/// Block `i` of a sequence.
pub open spec fn block_at(seq: Seq<u32>, block: int, i: int) -> Seq<u32> {
    seq.subrange(i * block, i * block + block)
}

/// Hash of block `i` of a sequence, chained over the blocks before it.
pub open spec fn chain_at(seq: Seq<u32>, block: int, i: int) -> u64
    decreases i + 1,
{
    if i < 0 {
        FNV_SEED
    } else {
        chained(chain_at(seq, block, i - 1), block_at(seq, block, i))
    }
}

/// The chained hashes of the full blocks of a sequence.
pub open spec fn chain_of(seq: Seq<u32>, block: int) -> Seq<u64> {
    Seq::new((seq.len() as int / block) as nat, |i: int| chain_at(seq, block, i))
}

/// A number, well mixed.
pub open spec fn scrambled(x: u64) -> u64 {
    lineage::mixed(x.wrapping_add(GAMMA))
}

/// Hash of some bytes.
pub fn fnv64(bytes: &[u8]) -> (r: u64)
    ensures
        r == fnv_bytes(FNV_SEED, bytes@),
{
    let mut h: u64 = FNV_SEED;
    let mut i: usize = 0;
    assert(bytes@.take(0) =~= Seq::<u8>::empty());
    while i < bytes.len()
        invariant
            i <= bytes@.len(),
            h == fnv_bytes(FNV_SEED, bytes@.take(i as int)),
        decreases bytes@.len() - i,
    {
        proof {
            assert(bytes@.take(i + 1).drop_last() =~= bytes@.take(i as int));
        }
        h = (h ^ (bytes[i] as u64)).wrapping_mul(FNV_PRIME);
        i = i + 1;
    }
    assert(bytes@.take(i as int) =~= bytes@);
    h
}

fn fold_ids(start: u64, ids: &[u32], from: usize, to: usize) -> (r: u64)
    requires
        from <= to <= ids@.len(),
    ensures
        r == fnv_ids(start, ids@.subrange(from as int, to as int)),
{
    let mut h: u64 = start;
    let mut i: usize = from;
    assert(ids@.subrange(from as int, from as int) =~= Seq::<u32>::empty());
    while i < to
        invariant
            from <= i <= to <= ids@.len(),
            h == fnv_ids(start, ids@.subrange(from as int, i as int)),
        decreases to - i,
    {
        proof {
            assert(ids@.subrange(from as int, i + 1).drop_last() =~= ids@.subrange(
                from as int,
                i as int,
            ));
        }
        h = (h ^ (ids[i] as u64)).wrapping_mul(FNV_PRIME);
        i = i + 1;
    }
    h
}

/// Hash of the first 64 of some ids.
pub fn fnv64_u32(ids: &[u32]) -> (r: u64)
    ensures
        r == fnv_ids(
            FNV_SEED,
            ids@.take(
                if ids@.len() < 64 {
                    ids@.len() as int
                } else {
                    64
                },
            ),
        ),
{
    let n: usize = if ids.len() < 64 {
        ids.len()
    } else {
        64
    };
    assert(ids@.subrange(0, n as int) =~= ids@.take(n as int));
    fold_ids(FNV_SEED, ids, 0, n)
}

/// Hash of a block behind the block with hash `prev`.
pub fn chain_hash(prev: u64, block: &[u32]) -> (r: u64)
    ensures
        r == chained(prev, block@),
{
    assert(block@.subrange(0, block@.len() as int) =~= block@);
    fold_ids(prev ^ FNV_PRIME, block, 0, block.len())
}

/// The chained hashes of the full blocks of a sequence; what is left over at
/// its end has none.
pub fn chain_hashes(seq: &[u32], block_size: usize) -> (r: Vec<u64>)
    requires
        block_size > 0,
    ensures
        r@ == chain_of(seq@, block_size as int),
{
    let mut chain: Vec<u64> = Vec::new();
    let mut prev: u64 = FNV_SEED;
    let mut from: usize = 0;
    let ghost n = seq@.len() as int / block_size as int;
    while seq.len() - from >= block_size
        invariant
            block_size > 0,
            n == seq@.len() as int / block_size as int,
            chain@.len() <= n,
            from == chain@.len() * block_size <= seq@.len(),
            prev == chain_at(seq@, block_size as int, chain@.len() - 1),
            forall|i: int|
                0 <= i < chain@.len() ==> #[trigger] chain@[i] == chain_at(
                    seq@,
                    block_size as int,
                    i,
                ),
        decreases seq@.len() - from,
    {
        let ghost k = chain@.len() as int;
        assert(k < n && (k + 1) * block_size == from + block_size) by (nonlinear_arith)
            requires
                block_size > 0,
                from == k * block_size,
                seq@.len() - from >= block_size,
                n == seq@.len() as int / block_size as int,
        ;
        prev = fold_ids(prev ^ FNV_PRIME, seq, from, from + block_size);
        chain.push(prev);
        from = from + block_size;
    }
    assert(chain@.len() == n) by (nonlinear_arith)
        requires
            block_size > 0,
            chain@.len() <= n,
            from == chain@.len() * block_size,
            seq@.len() - from < block_size,
            n == seq@.len() as int / block_size as int,
    ;
    assert(chain@ =~= chain_of(seq@, block_size as int));
    chain
}

/// A number, well mixed.
pub fn splitmix64(x: u64) -> (r: u64)
    ensures
        r == scrambled(x),
{
    lineage::splitmix(x.wrapping_add(GAMMA))
}

/// Chains go on alike: a longer sequence has the hashes of every sequence that
/// it begins with.
pub proof fn chains_extend(a: Seq<u32>, b: Seq<u32>, block: int)
    requires
        block > 0,
        a.len() <= b.len(),
        b.take(a.len() as int) == a,
    ensures
        chain_of(a, block).len() <= chain_of(b, block).len(),
        chain_of(b, block).take(chain_of(a, block).len() as int) == chain_of(a, block),
{
    let n = a.len() as int / block;
    assert(n <= b.len() as int / block && n * block <= a.len()) by (nonlinear_arith)
        requires
            block > 0,
            a.len() <= b.len(),
            n == a.len() as int / block,
    ;
    assert forall|i: int| 0 <= i < n implies chain_at(a, block, i) == chain_at(b, block, i) by {
        chain_alike(a, b, block, n, i);
    }
    assert(chain_of(b, block).take(n) =~= chain_of(a, block));
}

proof fn chain_alike(a: Seq<u32>, b: Seq<u32>, block: int, n: int, i: int)
    requires
        block > 0,
        a.len() <= b.len(),
        b.take(a.len() as int) == a,
        n * block <= a.len(),
        -1 <= i < n,
    ensures
        chain_at(a, block, i) == chain_at(b, block, i),
    decreases i + 1,
{
    if i >= 0 {
        chain_alike(a, b, block, n, i - 1);
        assert(i * block + block <= a.len() && 0 <= i * block) by (nonlinear_arith)
            requires
                block > 0,
                0 <= i < n,
                n * block <= a.len(),
        ;
        assert forall|x: int| 0 <= x < a.len() implies a[x] == b[x] by {
            assert(b.take(a.len() as int)[x] == b[x]);
        }
        assert(block_at(a, block, i) =~= block_at(b, block, i));
    }
}

} // verus!
