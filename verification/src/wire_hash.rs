//! The wire hash scheme: content hashes of token blocks, and the rolling
//! sequence hashes of a placement chain.

use vstd::bytes::u32_to_le_bytes;
use vstd::bytes::u64_to_le_bytes;
use vstd::prelude::*;

verus! {

/// Identity of a block on its chain.
#[derive(Debug, Clone, Copy, PartialEq, Eq, Hash, Structural)]
pub struct SequenceHash(pub u64);

/// Identity of a block's content, wherever it stands.
#[derive(Debug, Clone, Copy, PartialEq, Eq, Hash, Structural)]
pub struct ContentHash(pub u64);

/// Version of the scheme, carried on the wire.
pub const HASH_SCHEME_V1: u32 = 1;

/// Seed of the scheme.
pub const WIRE_SEED: u64 = 1337;

/// The XXH3 hash of some bytes under a seed, 64 bits wide.
pub uninterp spec fn xxh3_64(bytes: Seq<u8>, seed: u64) -> u64;

/// `xxhash_rust::xxh3::xxh3_64_with_seed`: the XXH3 hash of `bytes` under
/// `seed`, a function of the two alone.
#[verifier::external_body]
fn xxh3(bytes: &[u8], seed: u64) -> (r: u64)
    ensures
        r == xxh3_64(bytes@, seed),
{
    xxhash_rust::xxh3::xxh3_64_with_seed(bytes, seed)
}

/// Tokens as bytes, each as four bytes with the lowest first.
pub open spec fn token_bytes(tokens: Seq<u32>) -> Seq<u8>
    decreases tokens.len(),
{
    if tokens.len() == 0 {
        Seq::empty()
    } else {
        token_bytes(tokens.drop_last()) + vstd::bytes::spec_u32_to_le_bytes(tokens.last())
    }
}

/// Content hash of a token block.
pub open spec fn content_of(tokens: Seq<u32>) -> u64 {
    xxh3_64(token_bytes(tokens), WIRE_SEED)
}

/// Sequence hash of the block with `content` behind the block `prev`.
pub open spec fn sequel(prev: u64, content: u64) -> u64 {
    xxh3_64(
        vstd::bytes::spec_u64_to_le_bytes(prev) + vstd::bytes::spec_u64_to_le_bytes(content),
        WIRE_SEED,
    )
}

/// Sequence hash of position `p` of a chain: the content itself at position 0,
/// and the rolling hash from there on.
pub open spec fn sequence_at(contents: Seq<ContentHash>, p: int) -> u64
    decreases p,
{
    if p <= 0 {
        contents[0].0
    } else {
        sequel(sequence_at(contents, p - 1), contents[p].0)
    }
}

/// Content hash of a token block.
pub fn content_hash(tokens: &[u32]) -> (r: ContentHash)
    ensures
        r.0 == content_of(tokens@),
{
    let mut bytes: Vec<u8> = Vec::new();
    let mut i: usize = 0;
    proof {
        assert(tokens@.take(0) =~= Seq::<u32>::empty());
    }
    while i < tokens.len()
        invariant
            i <= tokens@.len(),
            bytes@ == token_bytes(tokens@.take(i as int)),
        decreases tokens@.len() - i,
    {
        let mut word = u32_to_le_bytes(tokens[i]);
        bytes.append(&mut word);
        i = i + 1;
        proof {
            assert(tokens@.take(i as int).drop_last() =~= tokens@.take(i - 1));
        }
    }
    assert(tokens@.take(i as int) =~= tokens@);
    ContentHash(xxh3(bytes.as_slice(), WIRE_SEED))
}

/// Every block of a chain with its sequence hash.
pub fn placement_chain(contents: &[ContentHash]) -> (r: Vec<(SequenceHash, ContentHash)>)
    ensures
        r@.len() == contents@.len(),
        forall|i: int|
            0 <= i < r@.len() ==> #[trigger] r@[i] == (
                SequenceHash(sequence_at(contents@, i)),
                contents@[i],
            ),
{
    let mut out: Vec<(SequenceHash, ContentHash)> = Vec::new();
    let mut prev: u64 = 0;
    let mut i: usize = 0;
    while i < contents.len()
        invariant
            i <= contents@.len(),
            out@.len() == i,
            i > 0 ==> prev == sequence_at(contents@, i - 1),
            forall|j: int|
                0 <= j < i ==> #[trigger] out@[j] == (
                    SequenceHash(sequence_at(contents@, j)),
                    contents@[j],
                ),
        decreases contents@.len() - i,
    {
        let content = contents[i];
        if i == 0 {
            prev = content.0;
        } else {
            let mut bytes = u64_to_le_bytes(prev);
            let mut word = u64_to_le_bytes(content.0);
            bytes.append(&mut word);
            prev = xxh3(bytes.as_slice(), WIRE_SEED);
        }
        out.push((SequenceHash(prev), content));
        i = i + 1;
    }
    out
}

/// Tokens go into a content hash in their order, each as its own four bytes: the
/// bytes tell the tokens, and no two sequences of tokens share them.
pub proof fn tokens_are_told_apart(a: Seq<u32>, b: Seq<u32>, i: int)
    ensures
        token_bytes(a).len() == 4 * a.len(),
        0 <= i < a.len() ==> token_bytes(a).subrange(4 * i, 4 * i + 4)
            == vstd::bytes::spec_u32_to_le_bytes(a[i]),
        token_bytes(a) == token_bytes(b) ==> a == b,
        content_of(a) == xxh3_64(token_bytes(a), 1337),
{
    token_section(a, i);
    if token_bytes(a) == token_bytes(b) {
        token_section(b, i);
        assert forall|x: int| 0 <= x < a.len() implies a[x] == b[x] by {
            token_section(a, x);
            token_section(b, x);
            vstd::bytes::lemma_auto_spec_u32_to_from_le_bytes();
            assert(vstd::bytes::spec_u32_to_le_bytes(a[x]).len() == 4);
            assert(vstd::bytes::spec_u32_to_le_bytes(b[x]).len() == 4);
        }
        assert(a =~= b);
    }
}

proof fn token_section(a: Seq<u32>, i: int)
    ensures
        token_bytes(a).len() == 4 * a.len(),
        0 <= i < a.len() ==> token_bytes(a).subrange(4 * i, 4 * i + 4)
            == vstd::bytes::spec_u32_to_le_bytes(a[i]),
    decreases a.len(),
{
    vstd::bytes::lemma_auto_spec_u32_to_from_le_bytes();
    if a.len() > 0 {
        let init = a.drop_last();
        token_section(init, i);
        let last = vstd::bytes::spec_u32_to_le_bytes(a.last());
        assert(last.len() == 4);
        if 0 <= i < init.len() {
            assert(token_bytes(a).subrange(4 * i, 4 * i + 4) =~= token_bytes(init).subrange(
                4 * i,
                4 * i + 4,
            ));
        } else if i == init.len() {
            assert(token_bytes(a).subrange(4 * i, 4 * i + 4) =~= last);
        }
    }
}

/// A sequence hash tells the chain up to its block: the first is the content itself,
/// every other one hashes the one before and the content, and chains that agree up to
/// a block agree on its hash, whatever follows.
pub proof fn sequence_hashes_roll(a: Seq<ContentHash>, b: Seq<ContentHash>, p: int)
    requires
        0 <= p < a.len(),
        p < b.len(),
    ensures
        p == 0 ==> sequence_at(a, p) == a[0].0,
        p > 0 ==> sequence_at(a, p) == xxh3_64(
            vstd::bytes::spec_u64_to_le_bytes(sequence_at(a, p - 1))
                + vstd::bytes::spec_u64_to_le_bytes(a[p].0),
            1337,
        ),
        (forall|i: int| 0 <= i <= p ==> a[i] == b[i]) ==> sequence_at(a, p) == sequence_at(b, p),
    decreases p,
{
    if p > 0 {
        sequence_hashes_roll(a, b, p - 1);
    }
}

} // verus!
