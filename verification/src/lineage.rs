//! Lineage fingerprints: a rolling 64-bit mix over a chain's contents.

use crate::types::ContentHash;
use vstd::arithmetic::div_mod::lemma_fundamental_div_mod;
use vstd::prelude::*;

verus! {

/// First multiplier of the finalizer.
pub const MIX_A: u64 = 0xBF58476D1CE4E5B9;

/// Second multiplier of the finalizer.
pub const MIX_B: u64 = 0x94D049BB133111EB;

/// Whitening constant of a chain's first block.
pub const ROOT_SALT: u64 = 0xA0761D6478BD642F;

/// Multiplier applied to a content before it is mixed into a lineage.
pub const STEP_MUL: u64 = 0x9E3779B97F4A7C15;

/// The splitmix finalizer.
pub open spec fn mixed(z: u64) -> u64 {
    let a = (z ^ (z >> 30)).wrapping_mul(MIX_A);
    let b = (a ^ (a >> 27)).wrapping_mul(MIX_B);
    b ^ (b >> 31)
}

/// Fingerprint of the one-block chain `content`.
pub open spec fn root_of(content: u64) -> u64 {
    mixed(ROOT_SALT ^ content)
}

/// Fingerprint of a chain with fingerprint `prev`, extended by `content`.
pub open spec fn step_of(prev: u64, content: u64) -> u64 {
    mixed(((prev << 23) | (prev >> 41)) ^ content.wrapping_mul(STEP_MUL))
}

/// Fingerprint of a non-empty chain.
pub open spec fn lineage_of(chain: Seq<u64>) -> u64
    decreases chain.len(),
{
    if chain.len() <= 1 {
        root_of(chain[0])
    } else {
        step_of(lineage_of(chain.drop_last()), chain.last())
    }
}

pub(crate) fn splitmix(z: u64) -> (r: u64)
    ensures
        r == mixed(z),
{
    let a: u64 = (z ^ (z >> 30)).wrapping_mul(MIX_A);
    let b: u64 = (a ^ (a >> 27)).wrapping_mul(MIX_B);
    b ^ (b >> 31)
}

pub(crate) fn lineage_root(content: ContentHash) -> (r: u64)
    ensures
        r == root_of(content),
{
    splitmix(ROOT_SALT ^ content)
}

pub(crate) fn lineage_step(prev: u64, content: ContentHash) -> (r: u64)
    ensures
        r == step_of(prev, content),
{
    splitmix(((prev << 23) | (prev >> 41)) ^ content.wrapping_mul(STEP_MUL))
}

/// Multiplying by an invertible constant loses nothing.
pub(crate) proof fn product_is_injective(x: u64, y: u64, c: u64, inverse: int, excess: int)
    requires
        x.wrapping_mul(c) == y.wrapping_mul(c),
        c * inverse == 1 + excess * 0x1_0000_0000_0000_0000,
    ensures
        x == y,
{
    let m: int = 0x1_0000_0000_0000_0000;
    let xc = x * c;
    let yc = y * c;
    assert(xc % m == yc % m);
    lemma_fundamental_div_mod(xc, m);
    lemma_fundamental_div_mod(yc, m);
    let k = xc / m - yc / m;
    assert((x - y) * c == k * m) by (nonlinear_arith)
        requires
            xc == x * c,
            yc == y * c,
            xc == m * (xc / m) + xc % m,
            yc == m * (yc / m) + yc % m,
            xc % m == yc % m,
            k == xc / m - yc / m,
    ;
    let d = x - y;
    let t = k * inverse - d * excess;
    assert(d == t * m) by (nonlinear_arith)
        requires
            d * c == k * m,
            c * inverse == 1 + excess * m,
            t == k * inverse - d * excess,
    {
        assert(d * (c * inverse) == d + (d * excess) * m);
        assert((d * c) * inverse == d * (c * inverse));
        assert((k * m) * inverse == (k * inverse) * m);
        assert(t * m == (k * inverse) * m - (d * excess) * m);
    }
    assert(d == 0) by (nonlinear_arith)
        requires
            d == t * m,
            -m < d < m,
            m == 0x1_0000_0000_0000_0000,
    ;
}

/// The finalizer loses nothing.
proof fn mixing_is_injective(za: u64, zb: u64)
    requires
        mixed(za) == mixed(zb),
    ensures
        za == zb,
{
    let ya = za ^ (za >> 30);
    let yb = zb ^ (zb >> 30);
    let xa = ya.wrapping_mul(MIX_A);
    let xb = yb.wrapping_mul(MIX_A);
    let wa = xa ^ (xa >> 27);
    let wb = xb ^ (xb >> 27);
    let va = wa.wrapping_mul(MIX_B);
    let vb = wb.wrapping_mul(MIX_B);
    assert(va == vb) by (bit_vector)
        requires
            va ^ (va >> 31) == vb ^ (vb >> 31),
    ;
    product_is_injective(wa, wb, MIX_B, 0x319642b2d24d8ec3, 0x1cd336eda85f1453);
    assert(xa == xb) by (bit_vector)
        requires
            xa ^ (xa >> 27) == xb ^ (xb >> 27),
    ;
    product_is_injective(ya, yb, MIX_A, 0x96de1b173f119089, 0x70c3bca78f27f46c);
    assert(za == zb) by (bit_vector)
        requires
            za ^ (za >> 30) == zb ^ (zb >> 30),
    ;
}

/// No two contents share a root fingerprint.
pub proof fn roots_never_collide(a: u64, b: u64)
    requires
        root_of(a) == root_of(b),
    ensures
        a == b,
{
    let za = ROOT_SALT ^ a;
    let zb = ROOT_SALT ^ b;
    mixing_is_injective(za, zb);
    assert(a == b) by (bit_vector)
        requires
            za == 0xA0761D6478BD642Fu64 ^ a,
            zb == 0xA0761D6478BD642Fu64 ^ b,
            za == zb,
    ;
}

/// Different chains that are extended by the same content stay different, and a
/// chain that is extended by different contents becomes different chains.
pub proof fn steps_never_collide(p: u64, a: u64, q: u64, b: u64)
    requires
        step_of(p, a) == step_of(q, b),
        p == q || a == b,
    ensures
        p == q && a == b,
{
    let x = a.wrapping_mul(STEP_MUL);
    let y = b.wrapping_mul(STEP_MUL);
    let za = ((p << 23) | (p >> 41)) ^ x;
    let zb = ((q << 23) | (q >> 41)) ^ y;
    mixing_is_injective(za, zb);
    assert((p == q ==> x == y) && (x == y ==> p == q)) by (bit_vector)
        requires
            za == ((p << 23) | (p >> 41)) ^ x,
            zb == ((q << 23) | (q >> 41)) ^ y,
            za == zb,
    ;
    if p == q {
        product_is_injective(a, b, STEP_MUL, 0xf1de83e19937733d, 0x957bbf35006ed677);
    }
}

} // verus!
