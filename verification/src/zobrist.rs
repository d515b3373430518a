//! Zobrist keys from a SplitMix64 stream with a fixed seed.
//!
//! The n-th number of the stream (counting from 1) is `mix(SEED + n * GAMMA)`
//! modulo 2^64, so every key can be computed directly from its position in
//! the stream.  Key layout in the stream: piece keys `1 + 64 * piece + square`
//! (pieces 0..13), then the side key, 16 castling keys and 8 en-passant keys.
use vstd::prelude::*;
use vstd::arithmetic::div_mod::{lemma_add_mod_noop, lemma_mod_twice, lemma_small_mod};

verus! {

pub const SEED: u64 = 0x1234_5678_9ABC_DEF1;

pub const GAMMA: u64 = 0x9E37_79B9_7F4A_7C15;

pub const MIX1: u64 = 0xBF58_476D_1CE4_E5B9;

pub const MIX2: u64 = 0x94D0_49BB_1331_11EB;

/// Stream position of the side-to-move key.
pub const SIDE_KEY_INDEX: u64 = 833;

/// Stream position of the first castling key.
pub const CASTLE_KEY_BASE: u64 = 834;

/// Stream position of the first en-passant file key.
pub const EP_KEY_BASE: u64 = 850;

pub open spec fn word() -> nat {
    0x1_0000_0000_0000_0000
}

/// The SplitMix64 output function.
pub open spec fn mix(z0: u64) -> u64 {
    let z1 = vstd::wrapping::u64_specs::wrapping_mul(z0 ^ (z0 >> 30u64), MIX1);
    let z2 = vstd::wrapping::u64_specs::wrapping_mul(z1 ^ (z1 >> 27u64), MIX2);
    z2 ^ (z2 >> 31u64)
}

/// Generator state after `n` steps.
pub open spec fn state_at(n: nat) -> u64 {
    ((SEED as nat + n * (GAMMA as nat)) % word()) as u64
}

/// The `n`-th number of the stream (the first one is `n == 1`).
pub open spec fn zkey(n: nat) -> u64 {
    mix(state_at(n))
}

pub open spec fn piece_key(p: u8, s: int) -> u64 {
    zkey((1 + 64 * p + s) as nat)
}

pub open spec fn side_key() -> u64 {
    zkey(SIDE_KEY_INDEX as nat)
}

pub open spec fn castle_key(c: u8) -> u64 {
    zkey((CASTLE_KEY_BASE + c) as nat)
}

pub open spec fn ep_key(f: u8) -> u64 {
    zkey((EP_KEY_BASE + f) as nat)
}

/// One step of the generator advances its state by `GAMMA`.
pub proof fn lemma_state_step(n: nat)
    ensures
        vstd::wrapping::u64_specs::wrapping_add(state_at(n), GAMMA) == state_at(n + 1),
{
    let m = word() as int;
    let a = SEED as int + n * (GAMMA as int);
    assert(a + GAMMA as int == SEED as int + (n + 1) * (GAMMA as int)) by (nonlinear_arith)
        requires
            a == SEED as int + n * (GAMMA as int),
    ;
    lemma_add_mod_noop(a, GAMMA as int, m);
    lemma_small_mod(GAMMA as nat, m as nat);
    let x = a % m;
    assert(0 <= x < m);
    if x + GAMMA as int > u64::MAX as int {
        lemma_small_mod((x + GAMMA as int - m) as nat, m as nat);
        assert((x + GAMMA as int) % m == x + GAMMA as int - m) by {
            vstd::arithmetic::div_mod::lemma_mod_sub_multiples_vanish(x + GAMMA as int, m);
        }
    } else {
        lemma_small_mod((x + GAMMA as int) as nat, m as nat);
    }
}

fn mix_exec(z0: u64) -> (r: u64)
    ensures
        r == mix(z0),
{
    let z1 = (z0 ^ (z0 >> 30u64)).wrapping_mul(MIX1);
    let z2 = (z1 ^ (z1 >> 27u64)).wrapping_mul(MIX2);
    z2 ^ (z2 >> 31u64)
}

/// Advances the generator state and returns the next number of the stream.
fn splitmix64(state: &mut u64) -> (r: u64)
    ensures
        *final(state) == vstd::wrapping::u64_specs::wrapping_add(*old(state), GAMMA),
        r == mix(*final(state)),
{
    *state = state.wrapping_add(GAMMA);
    mix_exec(*state)
}

/// The `n`-th number of the stream, computed directly.
pub fn zkey_at(n: u64) -> (r: u64)
    ensures
        r == zkey(n as nat),
{
    let st = SEED.wrapping_add(n.wrapping_mul(GAMMA));
    proof {
        let m = word() as int;
        let p = (n as int) * (GAMMA as int);
        assert(p >= 0) by (nonlinear_arith)
            requires
                n >= 0,
                p == (n as int) * (GAMMA as int),
        ;
        let w = p % m;
        lemma_add_mod_noop(SEED as int, p, m);
        lemma_small_mod(SEED as nat, m as nat);
        assert(n as nat * (GAMMA as nat) == p);
        if SEED as int + w > u64::MAX as int {
            vstd::arithmetic::div_mod::lemma_mod_sub_multiples_vanish(SEED as int + w, m);
            lemma_small_mod((SEED as int + w - m) as nat, m as nat);
        } else {
            lemma_small_mod((SEED as int + w) as nat, m as nat);
        }
    }
    mix_exec(st)
}

pub fn piece_key_exec(p: u8, s: u8) -> (r: u64)
    requires
        s < 64,
    ensures
        r == piece_key(p, s as int),
{
    zkey_at(1 + 64 * (p as u64) + (s as u64))
}

pub fn side_key_exec() -> (r: u64)
    ensures
        r == side_key(),
{
    zkey_at(SIDE_KEY_INDEX)
}

pub fn castle_key_exec(c: u8) -> (r: u64)
    ensures
        r == castle_key(c),
{
    zkey_at(CASTLE_KEY_BASE + c as u64)
}

pub fn ep_key_exec(f: u8) -> (r: u64)
    ensures
        r == ep_key(f),
{
    zkey_at(EP_KEY_BASE + f as u64)
}

/// The full table of Zobrist keys.
pub struct Zobrist {
    pub piece: [[u64; 64]; 13],
    pub side: u64,
    pub castle: [u64; 16],
    pub ep_file: [u64; 8],
}

/// Builds the key table by running the generator from its seed: piece keys
/// first (piece-major), then the side key, the castling keys and the
/// en-passant file keys.
pub fn zobrist() -> (z: Zobrist)
    ensures
        forall|p: int, s: int|
            0 <= p < 13 && 0 <= s < 64 ==> #[trigger] z.piece@[p]@[s] == piece_key(p as u8, s),
        z.side == side_key(),
        forall|i: int| 0 <= i < 16 ==> #[trigger] z.castle@[i] == castle_key(i as u8),
        forall|i: int| 0 <= i < 8 ==> #[trigger] z.ep_file@[i] == ep_key(i as u8),
{
    let mut z = Zobrist { piece: [[0u64; 64]; 13], side: 0, castle: [0u64; 16], ep_file: [0u64; 8] };
    let mut st: u64 = SEED;
    proof {
        lemma_small_mod(SEED as nat, word());
    }
    let mut p: usize = 0;
    while p < 13
        invariant
            p <= 13,
            st == state_at((64 * p) as nat),
            forall|q: int, s: int|
                0 <= q < p && 0 <= s < 64 ==> #[trigger] z.piece@[q]@[s] == piece_key(q as u8, s),
        decreases 13 - p,
    {
        let mut row = [0u64; 64];
        let mut s: usize = 0;
        while s < 64
            invariant
                p < 13,
                s <= 64,
                st == state_at((64 * p + s) as nat),
                forall|t: int| 0 <= t < s ==> #[trigger] row@[t] == piece_key(p as u8, t),
            decreases 64 - s,
        {
            proof {
                lemma_state_step((64 * p + s) as nat);
            }
            let k = splitmix64(&mut st);
            row[s] = k;
            s += 1;
        }
        z.piece[p] = row;
        p += 1;
    }
    proof {
        lemma_state_step(832);
    }
    z.side = splitmix64(&mut st);
    let mut i: usize = 0;
    while i < 16
        invariant
            i <= 16,
            st == state_at((833 + i) as nat),
            z.side == side_key(),
            forall|q: int, s: int|
                0 <= q < 13 && 0 <= s < 64 ==> #[trigger] z.piece@[q]@[s] == piece_key(q as u8, s),
            forall|t: int| 0 <= t < i ==> #[trigger] z.castle@[t] == castle_key(t as u8),
        decreases 16 - i,
    {
        proof {
            lemma_state_step((833 + i) as nat);
        }
        z.castle[i] = splitmix64(&mut st);
        i += 1;
    }
    let mut j: usize = 0;
    while j < 8
        invariant
            j <= 8,
            st == state_at((849 + j) as nat),
            z.side == side_key(),
            forall|q: int, s: int|
                0 <= q < 13 && 0 <= s < 64 ==> #[trigger] z.piece@[q]@[s] == piece_key(q as u8, s),
            forall|t: int| 0 <= t < 16 ==> #[trigger] z.castle@[t] == castle_key(t as u8),
            forall|t: int| 0 <= t < j ==> #[trigger] z.ep_file@[t] == ep_key(t as u8),
        decreases 8 - j,
    {
        proof {
            lemma_state_step((849 + j) as nat);
        }
        z.ep_file[j] = splitmix64(&mut st);
        j += 1;
    }
    z
}

} // verus!
