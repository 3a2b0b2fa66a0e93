//! The integer hash the whole world is drawn from.
use vstd::prelude::*;

verus! {

/// Multiplication modulo two to the thirty two.
#[verifier::opaque]
pub open spec fn wmul(a: u32, b: u32) -> u32 {
    ((a as int * b as int) % 0x1_0000_0000) as u32
}

/// The low thirty two bits of a coordinate, as a two's complement cast keeps them.
pub open spec fn low32(x: i64) -> u32 {
    #[verifier::truncate]
    (x as u32)
}

/// The avalanche applied after the four lattice terms are combined.
pub open spec fn finish(h0: u32) -> u32 {
    let h1 = h0 ^ (h0 >> 15u32);
    let h2 = wmul(h1, 0x2C1B_3C6Du32);
    let h3 = h2 ^ (h2 >> 12u32);
    let h4 = wmul(h3, 0x297A_2D39u32);
    h4 ^ (h4 >> 15u32)
}

/// The lattice hash of a point and a seed.
pub open spec fn spec_mix3(x: i64, y: i64, z: i64, seed: u32) -> u32 {
    finish(
        wmul(low32(x), 0x8DA6_B343u32) ^ wmul(low32(y), 0xD816_3841u32) ^ wmul(
            low32(z),
            0xCB1A_B31Fu32,
        ) ^ wmul(seed, 0x9E37_79B9u32),
    )
}

fn low_bits(x: i64) -> (r: u32)
    ensures
        r == low32(x),
{
    #[verifier::truncate]
    (x as u32)
}

fn times(a: u32, b: u32) -> (r: u32)
    ensures
        r == wmul(a, b),
{
    proof {
        reveal(wmul);
    }
    let r = a.wrapping_mul(b);
    r
}

/// The lattice's mixing, in whole numbers: multiply, exclusive or and shift.
pub fn mix3(x: i64, y: i64, z: i64, seed: u32) -> (h: u32)
    ensures
        h == spec_mix3(x, y, z, seed),
{
    let mut h = times(low_bits(x), 0x8DA6_B343) ^ times(low_bits(y), 0xD816_3841) ^ times(
        low_bits(z),
        0xCB1A_B31F,
    ) ^ times(seed, 0x9E37_79B9);
    h = h ^ (h >> 15);
    h = times(h, 0x2C1B_3C6D);
    h = h ^ (h >> 12);
    h = times(h, 0x297A_2D39);
    h = h ^ (h >> 15);
    h
}

proof fn lemma_undo_mul(a: u32, k: u32, kinv: u32, t: int)
    requires
        0 <= t,
        (k as int) * (kinv as int) == 1 + t * 0x1_0000_0000,
    ensures
        wmul(wmul(a, k), kinv) == a,
{
    reveal(wmul);
    let p = (a as int) * (k as int);
    vstd::arithmetic::div_mod::lemma_mul_mod_noop_left(p, kinv as int, 0x1_0000_0000);
    assert(p * (kinv as int) == (a as int) + ((a as int) * t) * 0x1_0000_0000) by (nonlinear_arith)
        requires
            p == (a as int) * (k as int),
            (k as int) * (kinv as int) == 1 + t * 0x1_0000_0000,
    ;
    vstd::arithmetic::div_mod::lemma_mod_multiples_vanish((a as int) * t, a as int, 0x1_0000_0000);
    vstd::arithmetic::div_mod::lemma_small_mod(a as nat, 0x1_0000_0000);
    vstd::arithmetic::div_mod::lemma_mod_pos_bound(p, 0x1_0000_0000);
}

proof fn lemma_mul_one_to_one(a: u32, b: u32, k: u32, kinv: u32, t: int)
    requires
        0 <= t,
        (k as int) * (kinv as int) == 1 + t * 0x1_0000_0000,
        wmul(a, k) == wmul(b, k),
    ensures
        a == b,
{
    lemma_undo_mul(a, k, kinv, t);
    lemma_undo_mul(b, k, kinv, t);
}

proof fn lemma_shift15_one_to_one(a: u32, b: u32)
    by (bit_vector)
    requires
        a ^ (a >> 15u32) == b ^ (b >> 15u32),
    ensures
        a == b,
{
}

proof fn lemma_shift12_one_to_one(a: u32, b: u32)
    by (bit_vector)
    requires
        a ^ (a >> 12u32) == b ^ (b >> 12u32),
    ensures
        a == b,
{
}

proof fn lemma_xor_fourth(a: u32, b: u32, c: u32, d: u32, d2: u32)
    by (bit_vector)
    requires
        a ^ b ^ c ^ d == a ^ b ^ c ^ d2,
    ensures
        d == d2,
{
}

proof fn lemma_finish_one_to_one(a: u32, b: u32)
    requires
        finish(a) == finish(b),
    ensures
        a == b,
{
    let (a1, b1) = (a ^ (a >> 15u32), b ^ (b >> 15u32));
    let (a2, b2) = (wmul(a1, 0x2C1B_3C6Du32), wmul(b1, 0x2C1B_3C6Du32));
    let (a3, b3) = (a2 ^ (a2 >> 12u32), b2 ^ (b2 >> 12u32));
    let (a4, b4) = (wmul(a3, 0x297A_2D39u32), wmul(b3, 0x297A_2D39u32));
    lemma_shift15_one_to_one(a4, b4);
    lemma_mul_one_to_one(a3, b3, 0x297A_2D39u32, 0x0CF0_B109u32, 35174744);
    lemma_shift12_one_to_one(a2, b2);
    lemma_mul_one_to_one(a1, b1, 0x2C1B_3C6Du32, 0x64EA_2D65u32, 291699794);
    lemma_shift15_one_to_one(a, b);
}

/// The four terms the hash combines, before its avalanche.
pub open spec fn blend(x: u32, y: u32, z: u32, seed: u32) -> u32 {
    wmul(x, 0x8DA6_B343u32) ^ wmul(y, 0xD816_3841u32) ^ wmul(z, 0xCB1A_B31Fu32) ^ wmul(
        seed,
        0x9E37_79B9u32,
    )
}

proof fn lemma_blend_one_to_one(x: u32, y: u32, z: u32, s: u32, x2: u32, y2: u32, z2: u32, s2: u32)
    ensures
        blend(x, y, z, s) == blend(x2, y, z, s) ==> x == x2,
        blend(x, y, z, s) == blend(x, y2, z, s) ==> y == y2,
        blend(x, y, z, s) == blend(x, y, z2, s) ==> z == z2,
        blend(x, y, z, s) == blend(x, y, z, s2) ==> s == s2,
{
    let (px, py, pz, ps) = (
        wmul(x, 0x8DA6_B343u32),
        wmul(y, 0xD816_3841u32),
        wmul(z, 0xCB1A_B31Fu32),
        wmul(s, 0x9E37_79B9u32),
    );
    if blend(x, y, z, s) == blend(x2, y, z, s) {
        lemma_xor_rest(px, wmul(x2, 0x8DA6_B343u32), py, pz, ps);
        lemma_mul_one_to_one(x, x2, 0x8DA6_B343u32, 0xB19B_F16Bu32, 1648790389);
    }
    if blend(x, y, z, s) == blend(x, y2, z, s) {
        lemma_xor_second(px, py, wmul(y2, 0xD816_3841u32), pz, ps);
        lemma_mul_one_to_one(y, y2, 0xD816_3841u32, 0xC5C1_D7C1u32, 2800531496);
    }
    if blend(x, y, z, s) == blend(x, y, z2, s) {
        lemma_xor_third(px, py, pz, wmul(z2, 0xCB1A_B31Fu32), ps);
        lemma_mul_one_to_one(z, z2, 0xCB1A_B31Fu32, 0x4A3B_08DFu32, 988057080);
    }
    if blend(x, y, z, s) == blend(x, y, z, s2) {
        lemma_xor_fourth(px, py, pz, ps, wmul(s2, 0x9E37_79B9u32));
        lemma_mul_one_to_one(s, s2, 0x9E37_79B9u32, 0x144C_BC89u32, 210485888);
    }
}

/// The hash reads only the low thirty two bits of each coordinate and of
/// the seed, and it tells every two of them apart: with the other three
/// held, two values give one hash exactly when their low thirty two bits
/// are the same.
pub proof fn lemma_mix3_one_to_one(x: i64, y: i64, z: i64, seed: u32, x2: i64, y2: i64, z2: i64, seed2: u32)
    ensures
        (spec_mix3(x, y, z, seed) == spec_mix3(x2, y, z, seed)) <==> low32(x) == low32(x2),
        (spec_mix3(x, y, z, seed) == spec_mix3(x, y2, z, seed)) <==> low32(y) == low32(y2),
        (spec_mix3(x, y, z, seed) == spec_mix3(x, y, z2, seed)) <==> low32(z) == low32(z2),
        (spec_mix3(x, y, z, seed) == spec_mix3(x, y, z, seed2)) <==> seed == seed2,
{
    let (a, b, c) = (low32(x), low32(y), low32(z));
    let (a2, b2, c2) = (low32(x2), low32(y2), low32(z2));
    assert(spec_mix3(x, y, z, seed) == finish(blend(a, b, c, seed)));
    assert(spec_mix3(x2, y, z, seed) == finish(blend(a2, b, c, seed)));
    assert(spec_mix3(x, y2, z, seed) == finish(blend(a, b2, c, seed)));
    assert(spec_mix3(x, y, z2, seed) == finish(blend(a, b, c2, seed)));
    assert(spec_mix3(x, y, z, seed2) == finish(blend(a, b, c, seed2)));
    lemma_blend_one_to_one(a, b, c, seed, a2, b2, c2, seed2);
    if spec_mix3(x, y, z, seed) == spec_mix3(x2, y, z, seed) {
        lemma_finish_one_to_one(blend(a, b, c, seed), blend(a2, b, c, seed));
    }
    if spec_mix3(x, y, z, seed) == spec_mix3(x, y2, z, seed) {
        lemma_finish_one_to_one(blend(a, b, c, seed), blend(a, b2, c, seed));
    }
    if spec_mix3(x, y, z, seed) == spec_mix3(x, y, z2, seed) {
        lemma_finish_one_to_one(blend(a, b, c, seed), blend(a, b, c2, seed));
    }
    if spec_mix3(x, y, z, seed) == spec_mix3(x, y, z, seed2) {
        lemma_finish_one_to_one(blend(a, b, c, seed), blend(a, b, c, seed2));
    }
}

proof fn lemma_xor_rest(a: u32, b: u32, c: u32, d: u32, e: u32)
    by (bit_vector)
    requires
        a ^ c ^ d ^ e == b ^ c ^ d ^ e,
    ensures
        a == b,
{
}

proof fn lemma_xor_second(a: u32, b: u32, b2: u32, d: u32, e: u32)
    by (bit_vector)
    requires
        a ^ b ^ d ^ e == a ^ b2 ^ d ^ e,
    ensures
        b == b2,
{
}

proof fn lemma_xor_third(a: u32, b: u32, c: u32, c2: u32, e: u32)
    by (bit_vector)
    requires
        a ^ b ^ c ^ e == a ^ b ^ c2 ^ e,
    ensures
        c == c2,
{
}

} // verus!
