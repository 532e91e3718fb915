//! Stateless Philox-4x32-10, the counter-based generator that keys every
//! random draw of the trainer by its coordinate `(seed, tree, node, feature, draw)`.
use vstd::prelude::*;

verus! {

/// Philox multiply constant applied to counter word 0.
pub const PHILOX_M0: u32 = 0xD251_1F53;
/// Philox multiply constant applied to counter word 2.
pub const PHILOX_M1: u32 = 0xCD9E_8D57;
/// Weyl increment for key word 0.
pub const PHILOX_W0: u32 = 0x9E37_79B9;
/// Weyl increment for key word 1.
pub const PHILOX_W1: u32 = 0xBB67_AE85;
/// Number of Philox rounds.
pub const PHILOX_ROUNDS: usize = 10;

/// High 32 bits of the 64-bit product `a * b`.
pub open spec fn mul_hi(a: u32, b: u32) -> u32 {
    ((a as nat * b as nat) / 0x1_0000_0000nat) as u32
}

/// Low 32 bits of the 64-bit product `a * b`.
pub open spec fn mul_lo(a: u32, b: u32) -> u32 {
    ((a as nat * b as nat) % 0x1_0000_0000nat) as u32
}

/// `a + b` modulo 2^32.
pub open spec fn add_wrap(a: u32, b: u32) -> u32 {
    ((a as nat + b as nat) % 0x1_0000_0000nat) as u32
}

/// One Philox-4x32 round on counter `c` with key `k`.
pub open spec fn round_spec(c: Seq<u32>, k: Seq<u32>) -> Seq<u32> {
    seq![
        mul_hi(PHILOX_M1, c[2]) ^ c[1] ^ k[0],
        mul_lo(PHILOX_M1, c[2]),
        mul_hi(PHILOX_M0, c[0]) ^ c[3] ^ k[1],
        mul_lo(PHILOX_M0, c[0]),
    ]
}

/// The key after `i` Weyl bumps.
pub open spec fn key_after(k: Seq<u32>, i: nat) -> Seq<u32>
    decreases i,
{
    if i == 0 {
        k
    } else {
        let p = key_after(k, (i - 1) as nat);
        seq![add_wrap(p[0], PHILOX_W0), add_wrap(p[1], PHILOX_W1)]
    }
}

/// The counter after the first `r` rounds: round `i` uses the key bumped `i` times.
pub open spec fn philox_rounds(c: Seq<u32>, k: Seq<u32>, r: nat) -> Seq<u32>
    decreases r,
{
    if r == 0 {
        c
    } else {
        round_spec(philox_rounds(c, k, (r - 1) as nat), key_after(k, (r - 1) as nat))
    }
}

/// Philox-4x32-10 of counter `c` under key `k`.
pub open spec fn philox_spec(c: Seq<u32>, k: Seq<u32>) -> Seq<u32> {
    philox_rounds(c, k, 10)
}

/// 32x32 -> 64 multiply, split into the high and low halves.
fn mulhilo32(a: u32, b: u32) -> (r: (u32, u32))
    ensures
        r.0 == mul_hi(a, b),
        r.1 == mul_lo(a, b),
{
    assert((a as u64) * (b as u64) <= 0xFFFF_FFFE_0000_0001u64) by (nonlinear_arith)
        requires a <= 0xFFFF_FFFFu32, b <= 0xFFFF_FFFFu32,
    ;
    let product: u64 = (a as u64) * (b as u64);
    let hi: u32 = (product >> 32u64) as u32;
    let lo: u32 = product as u32;
    assert(hi == product / 0x1_0000_0000u64 && lo == product % 0x1_0000_0000u64) by (bit_vector)
        requires hi == (product >> 32u64) as u32, lo == product as u32,
    ;
    (hi, lo)
}

/// One Philox-4x32 round.
fn round(ctr: [u32; 4], key: [u32; 2]) -> (r: [u32; 4])
    ensures
        r@ == round_spec(ctr@, key@),
{
    let (hi0, lo0) = mulhilo32(PHILOX_M0, ctr[0]);
    let (hi1, lo1) = mulhilo32(PHILOX_M1, ctr[2]);
    let r = [hi1 ^ ctr[1] ^ key[0], lo1, hi0 ^ ctr[3] ^ key[1], lo0];
    assert(r@ =~= round_spec(ctr@, key@));
    r
}

/// Bump the key by the Weyl increments (wrapping).
fn bump_key(key: [u32; 2]) -> (r: [u32; 2])
    ensures
        r@ == seq![add_wrap(key[0], PHILOX_W0), add_wrap(key[1], PHILOX_W1)],
{
    let r = [key[0].wrapping_add(PHILOX_W0), key[1].wrapping_add(PHILOX_W1)];
    assert(r@ =~= seq![add_wrap(key[0], PHILOX_W0), add_wrap(key[1], PHILOX_W1)]);
    r
}

/// Run all ten Philox rounds: round 0 uses the given key, each later round
/// bumps the key first.
pub fn philox4x32_10(ctr: [u32; 4], key: [u32; 2]) -> (r: [u32; 4])
    ensures
        r@ == philox_spec(ctr@, key@),
{
    let mut c = ctr;
    let mut k = key;
    let mut i: usize = 0;
    while i < PHILOX_ROUNDS
        invariant
            i <= PHILOX_ROUNDS,
            c@ == philox_rounds(ctr@, key@, i as nat),
            i == 0 ==> k@ == key@,
            i > 0 ==> k@ == key_after(key@, (i - 1) as nat),
        decreases PHILOX_ROUNDS - i,
    {
        if i != 0 {
            k = bump_key(k);
        }
        assert(k@ =~= key_after(key@, i as nat));
        c = round(c, k);
        i = i + 1;
    }
    c
}

/// The Philox key of a `u64` seed: its low and high 32-bit words.
pub open spec fn seed_key(seed: u64) -> Seq<u32> {
    seq![(seed % 0x1_0000_0000) as u32, (seed / 0x1_0000_0000) as u32]
}

/// The counter of a draw coordinate: one word each for tree, node, feature
/// and draw index.
pub open spec fn counter_of(tree: u32, node: u32, feature: u32, draw: u32) -> Seq<u32> {
    seq![tree, node, feature, draw]
}

/// The first output word of Philox for a draw coordinate under a seed.
pub open spec fn philox_word(seed: u64, tree: u32, node: u32, feature: u32, draw: u32) -> u32 {
    philox_spec(counter_of(tree, node, feature, draw), seed_key(seed))[0]
}

/// The 24-bit numerator of the uniform draw `x / 2^32` truncated to the 24
/// bits an `f32` holds: the draw is `(x >> 8) / 2^24`, in `[0, 1)`.
pub open spec fn unit_numerator_spec(x: u32) -> u32 {
    (x / 256) as u32
}

/// Pack a draw coordinate into a Philox counter.
pub fn pack_counter(tree: u32, node: u32, feature: u32, draw: u32) -> (r: [u32; 4])
    ensures
        r@ == counter_of(tree, node, feature, draw),
{
    let r = [tree, node, feature, draw];
    assert(r@ =~= counter_of(tree, node, feature, draw));
    r
}

/// The Philox key of a seed.
pub fn seed_to_key(seed: u64) -> (r: [u32; 2])
    ensures
        r@ == seed_key(seed),
{
    let lo = seed as u32;
    let hi = (seed >> 32u64) as u32;
    assert(lo == seed % 0x1_0000_0000 && hi == seed / 0x1_0000_0000) by (bit_vector)
        requires lo == seed as u32, hi == (seed >> 32u64) as u32;
    let r = [lo, hi];
    assert(r@ =~= seed_key(seed));
    r
}

/// The numerator of the uniform draw of `x`: its top 24 bits. The draw
/// itself is this value divided by `2^24`, so it lies in `[0, 1)`.
pub fn unit_numerator(x: u32) -> (r: u32)
    ensures
        r == unit_numerator_spec(x),
        r < 0x100_0000,
{
    let r = x >> 8u32;
    assert(r == x / 256) by (bit_vector)
        requires r == x >> 8u32;
    r
}

/// The uniform draw for a coordinate, as the numerator `m` of `m / 2^24`.
pub fn philox_uniform(seed: u64, tree: u32, node: u32, feature: u32, draw: u32) -> (r: u32)
    ensures
        r == unit_numerator_spec(philox_word(seed, tree, node, feature, draw)),
        r < 0x100_0000,
{
    let key = seed_to_key(seed);
    let ctr = pack_counter(tree, node, feature, draw);
    let out = philox4x32_10(ctr, key);
    unit_numerator(out[0])
}

/// Distinct draw coordinates give distinct counters.
pub proof fn lemma_counter_injective(
    t1: u32, n1: u32, f1: u32, d1: u32,
    t2: u32, n2: u32, f2: u32, d2: u32,
)
    requires
        counter_of(t1, n1, f1, d1) == counter_of(t2, n2, f2, d2),
    ensures
        t1 == t2 && n1 == n2 && f1 == f2 && d1 == d2,
{
    assert(counter_of(t1, n1, f1, d1)[0] == counter_of(t2, n2, f2, d2)[0]);
    assert(counter_of(t1, n1, f1, d1)[1] == counter_of(t2, n2, f2, d2)[1]);
    assert(counter_of(t1, n1, f1, d1)[2] == counter_of(t2, n2, f2, d2)[2]);
    assert(counter_of(t1, n1, f1, d1)[3] == counter_of(t2, n2, f2, d2)[3]);
}

/// Every uniform draw lies in `[0, 1)`: its numerator is below `2^24`.
pub proof fn lemma_unit_draw_below_one(x: u32)
    ensures
        unit_numerator_spec(x) < 0x100_0000,
{
}

/// Multiplying by an odd constant modulo 2^32 is undone by multiplying by its
/// inverse, so the low half of the product determines the factor.
proof fn lemma_mul_lo_injective(m: u32, a: u32, b: u32)
    requires
        m == PHILOX_M0 || m == PHILOX_M1,
        mul_lo(m, a) == mul_lo(m, b),
    ensures
        a == b,
{
    let la = mul_lo(m, a);
    let lb = mul_lo(m, b);
    if m == PHILOX_M0 {
        assert(((((0xD251_1F53u64 * a as u64) % 0x1_0000_0000) * 0x991a_7cdbu64) % 0x1_0000_0000) == a as u64)
            by (bit_vector);
        assert(((((0xD251_1F53u64 * b as u64) % 0x1_0000_0000) * 0x991a_7cdbu64) % 0x1_0000_0000) == b as u64)
            by (bit_vector);
    } else {
        assert(((((0xCD9E_8D57u64 * a as u64) % 0x1_0000_0000) * 0x6d7c_ae67u64) % 0x1_0000_0000) == a as u64)
            by (bit_vector);
        assert(((((0xCD9E_8D57u64 * b as u64) % 0x1_0000_0000) * 0x6d7c_ae67u64) % 0x1_0000_0000) == b as u64)
            by (bit_vector);
    }
}

/// A Philox round under a fixed key loses nothing: equal outputs come from
/// equal counters.
proof fn lemma_round_injective(c1: Seq<u32>, c2: Seq<u32>, k: Seq<u32>)
    requires
        c1.len() == 4,
        c2.len() == 4,
        k.len() == 2,
        round_spec(c1, k) == round_spec(c2, k),
    ensures
        c1 == c2,
{
    let r1 = round_spec(c1, k);
    let r2 = round_spec(c2, k);
    assert(r1[1] == r2[1] && r1[3] == r2[3] && r1[0] == r2[0] && r1[2] == r2[2]);
    lemma_mul_lo_injective(PHILOX_M1, c1[2], c2[2]);
    lemma_mul_lo_injective(PHILOX_M0, c1[0], c2[0]);
    let h1 = mul_hi(PHILOX_M1, c1[2]);
    let h0 = mul_hi(PHILOX_M0, c1[0]);
    let (a1, b1, a3, b3, k0, k1) = (c1[1], c2[1], c1[3], c2[3], k[0], k[1]);
    assert(h1 ^ a1 ^ k0 == h1 ^ b1 ^ k0 ==> a1 == b1) by (bit_vector);
    assert(h0 ^ a3 ^ k1 == h0 ^ b3 ^ k1 ==> a3 == b3) by (bit_vector);
    assert(c1 =~= c2);
}

/// Rounds keep a counter four words long.
proof fn lemma_rounds_len(c: Seq<u32>, k: Seq<u32>, r: nat)
    requires
        c.len() == 4,
    ensures
        philox_rounds(c, k, r).len() == 4,
    decreases r,
{
    if r > 0 {
        lemma_rounds_len(c, k, (r - 1) as nat);
    }
}

/// A bumped key stays two words long.
proof fn lemma_key_len(k: Seq<u32>, i: nat)
    requires
        k.len() == 2,
    ensures
        key_after(k, i).len() == 2,
    decreases i,
{
    if i > 0 {
        lemma_key_len(k, (i - 1) as nat);
    }
}

/// Under a fixed key, any number of rounds maps distinct counters to
/// distinct outputs.
proof fn lemma_rounds_injective(c1: Seq<u32>, c2: Seq<u32>, k: Seq<u32>, r: nat)
    requires
        c1.len() == 4,
        c2.len() == 4,
        k.len() == 2,
        philox_rounds(c1, k, r) == philox_rounds(c2, k, r),
    ensures
        c1 == c2,
    decreases r,
{
    if r > 0 {
        let p = (r - 1) as nat;
        lemma_rounds_len(c1, k, p);
        lemma_rounds_len(c2, k, p);
        lemma_key_len(k, p);
        lemma_round_injective(philox_rounds(c1, k, p), philox_rounds(c2, k, p), key_after(k, p));
        lemma_rounds_injective(c1, c2, k, p);
    }
}

/// Philox-4x32-10 under a fixed key is injective on counters (each round
/// is invertible: the multipliers are odd and xor undoes itself), so two
/// draws at distinct coordinates `(tree, node, feature, draw)` under one
/// seed never share their whole output block.
pub proof fn lemma_philox_injective(
    seed: u64,
    t1: u32, n1: u32, f1: u32, d1: u32,
    t2: u32, n2: u32, f2: u32, d2: u32,
)
    requires
        philox_spec(counter_of(t1, n1, f1, d1), seed_key(seed)) == philox_spec(
            counter_of(t2, n2, f2, d2),
            seed_key(seed),
        ),
    ensures
        t1 == t2 && n1 == n2 && f1 == f2 && d1 == d2,
{
    lemma_rounds_injective(counter_of(t1, n1, f1, d1), counter_of(t2, n2, f2, d2), seed_key(seed), 10);
    lemma_counter_injective(t1, n1, f1, d1, t2, n2, f2, d2);
}

} // verus!
